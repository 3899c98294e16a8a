//! The Unique Process-Instance Descriptor: a printable tag
//! `UPID:<node>:<pid>:<pstart>:<task-id>:<starttime>:<type>:<id>:<user>:`
//! identifying a worker task across reboots. Rendering and parsing
//! round-trip exactly.

use vstd::prelude::*;

use crate::strutil::{chars_to_string, push_chars, str_to_chars};
use crate::textenc::{
    all_hex_chars, hex_padded_upper, hex_seq_value, is_hex_char, lemma_hex_padded_upper_value,
    parse_hex_range, push_hex_padded_upper,
};

verus! {

/// Characters the Unicode `White_Space` property covers; the tag's
/// fields may not contain them.
pub open spec fn is_whitespace_char(c: char) -> bool {
    c == '\u{9}' || c == '\u{A}' || c == '\u{B}' || c == '\u{C}' || c == '\u{D}' || c == ' '
        || c == '\u{85}' || c == '\u{A0}' || c == '\u{1680}' || c == '\u{2000}'
        || c == '\u{2001}' || c == '\u{2002}' || c == '\u{2003}' || c == '\u{2004}'
        || c == '\u{2005}' || c == '\u{2006}' || c == '\u{2007}' || c == '\u{2008}'
        || c == '\u{2009}' || c == '\u{200A}' || c == '\u{2028}' || c == '\u{2029}'
        || c == '\u{202F}' || c == '\u{205F}' || c == '\u{3000}'
}

fn whitespace_char(c: char) -> (r: bool)
    ensures
        r == is_whitespace_char(c),
{
    match c {
        '\u{9}' | '\u{A}' | '\u{B}' | '\u{C}' | '\u{D}' | ' ' | '\u{85}' | '\u{A0}'
            | '\u{1680}' | '\u{2000}' | '\u{2001}' | '\u{2002}' | '\u{2003}' | '\u{2004}'
            | '\u{2005}' | '\u{2006}' | '\u{2007}' | '\u{2008}' | '\u{2009}' | '\u{200A}'
            | '\u{2028}' | '\u{2029}' | '\u{202F}' | '\u{205F}' | '\u{3000}' => true,
        _ => false,
    }
}

pub open spec fn is_alnum(c: char) -> bool {
    ('0' <= c && c <= '9') || ('a' <= c && c <= 'z') || ('A' <= c && c <= 'Z')
}

fn alnum(c: char) -> (r: bool)
    ensures
        r == is_alnum(c),
{
    ('0' <= c && c <= '9') || ('a' <= c && c <= 'z') || ('A' <= c && c <= 'Z')
}

/// A node name: alphanumeric with inner hyphens, non-empty.
pub open spec fn valid_node(s: Seq<char>) -> bool {
    &&& s.len() > 0
    &&& is_alnum(s[0])
    &&& is_alnum(s[s.len() - 1])
    &&& forall|i: int| 0 <= i < s.len() ==> is_alnum(#[trigger] s[i]) || s[i] == '-'
}

/// A worker-type or user field: non-empty, no colon, no whitespace.
pub open spec fn valid_field(s: Seq<char>) -> bool {
    &&& s.len() > 0
    &&& forall|i: int| 0 <= i < s.len() ==> (#[trigger] s[i]) != ':' && !is_whitespace_char(s[i])
}

/// A worker-id field: possibly empty, no colon, no whitespace.
pub open spec fn valid_wid_chars(s: Seq<char>) -> bool {
    forall|i: int| 0 <= i < s.len() ==> (#[trigger] s[i]) != ':' && !is_whitespace_char(s[i])
}

/// The mathematical content of a descriptor.
pub ghost struct UpidView {
    pub node: Seq<char>,
    pub pid: int,
    pub pstart: int,
    pub task_id: int,
    pub starttime: int,
    pub worker_type: Seq<char>,
    pub worker_id: Option<Seq<char>>,
    pub username: Seq<char>,
}

impl UpidView {
    /// A descriptor whose rendering matches the tag grammar.
    pub open spec fn valid(self) -> bool {
        &&& valid_node(self.node)
        &&& 0 <= self.pid <= 0x7FFFFFFF
        &&& 0 <= self.pstart < 0x1000000000
        &&& 0 <= self.task_id <= usize::MAX
        &&& 0 <= self.starttime <= 0xFFFFFFFF
        &&& valid_field(self.worker_type)
        &&& match self.worker_id {
            Some(w) => w.len() > 0 && valid_wid_chars(w),
            None => true,
        }
        &&& valid_field(self.username)
    }
}

/// Unique Process-Instance Descriptor of a worker task.
#[derive(Debug, Clone)]
pub struct UPID {
    pub pid: i32,
    pub pstart: u64,
    pub starttime: i64,
    pub task_id: usize,
    pub worker_type: String,
    pub worker_id: Option<String>,
    pub username: String,
    pub node: String,
}

impl View for UPID {
    type V = UpidView;

    open spec fn view(&self) -> UpidView {
        UpidView {
            node: self.node@,
            pid: self.pid as int,
            pstart: self.pstart as int,
            task_id: self.task_id as int,
            starttime: self.starttime as int,
            worker_type: self.worker_type@,
            worker_id: match self.worker_id {
                Some(w) => Some(w@),
                None => None,
            },
            username: self.username@,
        }
    }
}

/// The rendered text of a descriptor: colon-separated, the numeric
/// fields upper-case hexadecimal padded to eight digits, a trailing
/// colon closing the tag.
pub open spec fn upid_text(v: UpidView) -> Seq<char> {
    "UPID"@ + ":"@ + v.node + ":"@ + hex_padded_upper(8, v.pid as nat) + ":"@
        + hex_padded_upper(8, v.pstart as nat) + ":"@ + hex_padded_upper(8, v.task_id as nat)
        + ":"@ + hex_padded_upper(8, v.starttime as nat) + ":"@ + v.worker_type + ":"@ + (
    match v.worker_id {
        Some(w) => w,
        None => Seq::empty(),
    }) + ":"@ + v.username + ":"@
}

/// Split a character sequence at every colon; `n` colons give `n + 1`
/// parts, none containing a colon.
pub open spec fn split_colon(s: Seq<char>) -> Seq<Seq<char>>
    decreases s.len(),
{
    if s.len() == 0 {
        seq![Seq::empty()]
    } else {
        let rest = split_colon(s.drop_first());
        if s.first() == ':' {
            seq![Seq::<char>::empty()] + rest
        } else {
            rest.update(0, seq![s.first()] + rest[0])
        }
    }
}

pub proof fn lemma_split_colon_len(s: Seq<char>)
    ensures
        split_colon(s).len() >= 1,
    decreases s.len(),
{
    if s.len() > 0 {
        lemma_split_colon_len(s.drop_first());
    }
}

/// Appending one character extends the last part, or opens a new one.
pub proof fn lemma_split_colon_snoc(s: Seq<char>, c: char)
    ensures
        split_colon(s.push(c)) == (if c == ':' {
            split_colon(s).push(Seq::<char>::empty())
        } else {
            split_colon(s).update(
                split_colon(s).len() - 1,
                split_colon(s).last().push(c),
            )
        }),
    decreases s.len(),
{
    lemma_split_colon_len(s);
    if s.len() == 0 {
        assert(s.push(c).drop_first() =~= Seq::<char>::empty());
        assert(split_colon(Seq::<char>::empty()) =~~= seq![Seq::<char>::empty()]);
        if c == ':' {
            assert(split_colon(s.push(c)) =~~= split_colon(s).push(Seq::<char>::empty()));
        } else {
            assert(split_colon(s.push(c)) =~~= split_colon(s).update(
                0,
                split_colon(s).last().push(c),
            ));
        }
    } else {
        let t = s.push(c);
        assert(t.first() == s.first());
        assert(t.drop_first() =~= s.drop_first().push(c));
        lemma_split_colon_snoc(s.drop_first(), c);
        lemma_split_colon_len(s.drop_first());
        let rest = split_colon(s.drop_first());
        let rest2 = split_colon(s.drop_first().push(c));
        if c == ':' {
            if s.first() == ':' {
                assert(split_colon(t) =~~= split_colon(s).push(Seq::<char>::empty()));
            } else {
                assert(rest2[0] == rest[0]);
                assert(split_colon(t) =~~= split_colon(s).push(Seq::<char>::empty()));
            }
        } else {
            if s.first() == ':' {
                assert(rest2 == rest.update(rest.len() - 1, rest.last().push(c)));
                assert(split_colon(t) =~~= split_colon(s).update(
                    split_colon(s).len() - 1,
                    split_colon(s).last().push(c),
                ));
            } else {
                assert(rest2 == rest.update(rest.len() - 1, rest.last().push(c)));
                if rest.len() == 1 {
                    assert(rest2[0] == rest[0].push(c));
                    assert(split_colon(t) =~~= split_colon(s).update(
                        split_colon(s).len() - 1,
                        split_colon(s).last().push(c),
                    ));
                } else {
                    assert(rest2[0] == rest[0]);
                    assert(split_colon(t) =~~= split_colon(s).update(
                        split_colon(s).len() - 1,
                        split_colon(s).last().push(c),
                    ));
                }
            }
        }
    }
}

/// Splitting `part + ":" + rest` where `part` has no colon yields `part`
/// followed by the split of `rest`.
pub proof fn lemma_split_colon_prefix(part: Seq<char>, rest: Seq<char>)
    requires
        forall|i: int| 0 <= i < part.len() ==> (#[trigger] part[i]) != ':',
    ensures
        split_colon(part + ":"@ + rest) == seq![part] + split_colon(rest),
    decreases part.len(),
{
    reveal_strlit(":");
    if part.len() == 0 {
        let s = part + ":"@ + rest;
        assert(s.len() == rest.len() + 1);
        assert(s.first() == ':');
        assert(s.drop_first() =~= rest);
        assert(split_colon(s) =~~= seq![part] + split_colon(rest));
    } else {
        let s = part + ":"@ + rest;
        assert(s.first() == part[0]);
        assert(s.first() != ':');
        assert(s.drop_first() =~= part.drop_first() + ":"@ + rest);
        lemma_split_colon_prefix(part.drop_first(), rest);
        lemma_split_colon_len(rest);
        let inner = split_colon(part.drop_first() + ":"@ + rest);
        assert(inner == seq![part.drop_first()] + split_colon(rest));
        assert(inner[0] == part.drop_first());
        assert(seq![s.first()] + inner[0] =~= part);
        assert(split_colon(s) =~~= seq![part] + split_colon(rest));
    }
}

/// No part of a split contains a colon.
pub proof fn lemma_split_colon_parts_free(s: Seq<char>, p: int, i: int)
    requires
        0 <= p < split_colon(s).len(),
        0 <= i < split_colon(s)[p].len(),
    ensures
        split_colon(s)[p][i] != ':',
    decreases s.len(),
{
    if s.len() > 0 {
        let rest = split_colon(s.drop_first());
        lemma_split_colon_len(s.drop_first());
        if s.first() == ':' {
            assert(split_colon(s) == seq![Seq::<char>::empty()] + rest);
            if p == 0 {
                assert(split_colon(s)[0].len() == 0);
            } else {
                assert(split_colon(s)[p] == rest[p - 1]);
                lemma_split_colon_parts_free(s.drop_first(), p - 1, i);
            }
        } else {
            assert(split_colon(s) == rest.update(0, seq![s.first()] + rest[0]));
            if p == 0 {
                assert(split_colon(s)[0] == seq![s.first()] + rest[0]);
                if i == 0 {
                    assert(split_colon(s)[0][0] == s.first());
                } else {
                    assert(split_colon(s)[0][i] == rest[0][i - 1]);
                    lemma_split_colon_parts_free(s.drop_first(), 0, i - 1);
                }
            } else {
                assert(split_colon(s)[p] == rest[p]);
                lemma_split_colon_parts_free(s.drop_first(), p, i);
            }
        }
    }
}

/// The parsed content of a tag, when its ten colon-separated parts obey
/// the grammar.
pub open spec fn parse_upid_spec(s: Seq<char>) -> Option<UpidView> {
    let parts = split_colon(s);
    if parts.len() == 10 && parts[0] == "UPID"@ && parts[9].len() == 0 && valid_node(parts[1])
        && parts[2].len() == 8 && all_hex_chars(parts[2]) && hex_seq_value(parts[2])
        <= 0x7FFFFFFF && 8 <= parts[3].len() <= 9 && all_hex_chars(parts[3]) && parts[4].len()
        >= 8 && parts[4].len() <= 16 && all_hex_chars(parts[4]) && hex_seq_value(parts[4])
        <= usize::MAX && parts[5].len() == 8 && all_hex_chars(parts[5]) && valid_field(parts[6])
        && valid_wid_chars(parts[7]) && valid_field(parts[8]) {
        Some(
            UpidView {
                node: parts[1],
                pid: hex_seq_value(parts[2]),
                pstart: hex_seq_value(parts[3]),
                task_id: hex_seq_value(parts[4]),
                starttime: hex_seq_value(parts[5]),
                worker_type: parts[6],
                worker_id: if parts[7].len() == 0 {
                    None
                } else {
                    Some(parts[7])
                },
                username: parts[8],
            },
        )
    } else {
        None
    }
}

#[derive(Clone, Copy, Debug, PartialEq, Eq, Structural)]
pub struct UpidParseError;

impl UPID {
    /// Render the descriptor as its tag text.
    pub fn to_text(&self) -> (r: String)
        requires
            self@.valid(),
        ensures
            r@ == upid_text(self@),
    {
        let mut out: Vec<char> = Vec::new();
        push_chars(&mut out, "UPID");
        push_chars(&mut out, ":");
        push_chars(&mut out, self.node.as_str());
        push_chars(&mut out, ":");
        push_hex_padded_upper(&mut out, 8, self.pid as u64);
        push_chars(&mut out, ":");
        push_hex_padded_upper(&mut out, 8, self.pstart);
        push_chars(&mut out, ":");
        push_hex_padded_upper(&mut out, 8, self.task_id as u64);
        push_chars(&mut out, ":");
        push_hex_padded_upper(&mut out, 8, self.starttime as u64);
        push_chars(&mut out, ":");
        push_chars(&mut out, self.worker_type.as_str());
        push_chars(&mut out, ":");
        match &self.worker_id {
            Some(w) => push_chars(&mut out, w.as_str()),
            None => (),
        }
        push_chars(&mut out, ":");
        push_chars(&mut out, self.username.as_str());
        push_chars(&mut out, ":");
        assert(out@ =~= upid_text(self@));
        chars_to_string(&out)
    }

    /// Parse a tag text back into a descriptor.
    pub fn parse(s: &str) -> (r: Result<UPID, UpidParseError>)
        ensures
            r is Ok <==> parse_upid_spec(s@) is Some,
            r matches Ok(u) ==> u@ == parse_upid_spec(s@)->Some_0 && u@.valid(),
    {
        let chars = str_to_chars(s);
        let parts = split_at_colons(&chars);
        if parts.len() != 10 {
            proof {
                assert(parts.deep_view().len() == parts@.len());
            }
            return Err(UpidParseError);
        }
        proof {
            let sp = split_colon(s@);
            assert(parts.deep_view().len() == parts@.len());
            assert forall|k: int| 0 <= k < 10 implies parts@[k]@ =~= sp[k] by {
                assert(parts.deep_view()[k] == sp[k]);
                assert(parts@[k].deep_view() =~= parts@[k]@);
            }
            assert forall|p: int, i: int|
                0 <= p < 10 && 0 <= i < parts@[p]@.len() implies (
            #[trigger] parts@[p]@[i]) != ':' by {
                lemma_split_colon_parts_free(s@, p, i);
                assert(parts@[p]@[i] == split_colon(s@)[p][i]);
            }
        }
        if !part_equals_str(&parts, 0, "UPID") {
            return Err(UpidParseError);
        }
        if parts[9].len() != 0 {
            return Err(UpidParseError);
        }
        if !node_ok(&parts[1]) {
            return Err(UpidParseError);
        }
        if parts[2].len() != 8 {
            return Err(UpidParseError);
        }
        let pid64 = match parse_hex_range(&parts[2], 0, parts[2].len()) {
            Some(v) => v,
            None => {
                proof {
                    lemma_full_subrange(parts@[2]@);
                }
                return Err(UpidParseError);
            },
        };
        proof {
            lemma_full_subrange(parts@[2]@);
        }
        if pid64 > 0x7FFFFFFF {
            return Err(UpidParseError);
        }
        if parts[3].len() < 8 || parts[3].len() > 9 {
            return Err(UpidParseError);
        }
        let pstart = match parse_hex_range(&parts[3], 0, parts[3].len()) {
            Some(v) => v,
            None => {
                proof {
                    lemma_full_subrange(parts@[3]@);
                    if all_hex_chars(parts@[3]@) {
                        lemma_hex9_bound(parts@[3]@);
                    }
                }
                return Err(UpidParseError);
            },
        };
        proof {
            lemma_full_subrange(parts@[3]@);
        }
        if parts[4].len() < 8 || parts[4].len() > 16 {
            return Err(UpidParseError);
        }
        let task64 = match parse_hex_range(&parts[4], 0, parts[4].len()) {
            Some(v) => v,
            None => {
                proof {
                    lemma_full_subrange(parts@[4]@);
                }
                return Err(UpidParseError);
            },
        };
        proof {
            lemma_full_subrange(parts@[4]@);
        }
        if task64 > usize::MAX as u64 {
            return Err(UpidParseError);
        }
        if parts[5].len() != 8 {
            return Err(UpidParseError);
        }
        let starttime = match parse_hex_range(&parts[5], 0, parts[5].len()) {
            Some(v) => v,
            None => {
                proof {
                    lemma_full_subrange(parts@[5]@);
                    if all_hex_chars(parts@[5]@) {
                        lemma_hex8_bound(parts@[5]@);
                    }
                }
                return Err(UpidParseError);
            },
        };
        proof {
            lemma_full_subrange(parts@[5]@);
            lemma_hex8_bound(parts@[5]@);
            lemma_hex8_bound(parts@[2]@);
            lemma_hex9_bound(parts@[3]@);
        }
        if !field_no_ws(&parts[6]) || parts[6].len() == 0 {
            return Err(UpidParseError);
        }
        if !field_no_ws(&parts[7]) {
            return Err(UpidParseError);
        }
        if !field_no_ws(&parts[8]) || parts[8].len() == 0 {
            return Err(UpidParseError);
        }
        let worker_id = if parts[7].len() == 0 {
            None
        } else {
            Some(chars_to_string(&parts[7]))
        };
        let u = UPID {
            pid: pid64 as i32,
            pstart,
            starttime: starttime as i64,
            task_id: task64 as usize,
            worker_type: chars_to_string(&parts[6]),
            worker_id,
            username: chars_to_string(&parts[8]),
            node: chars_to_string(&parts[1]),
        };
        Ok(u)
    }
}

/// Hexadecimal digits never include the separator.
proof fn lemma_hex_colon_free(s: Seq<char>)
    requires
        all_hex_chars(s),
    ensures
        forall|i: int| 0 <= i < s.len() ==> (#[trigger] s[i]) != ':',
{
    assert(crate::textenc::hex_char_value(':') == 16);
    assert forall|i: int| 0 <= i < s.len() implies (#[trigger] s[i]) != ':' by {
        assert(is_hex_char(s[i]));
    }
}

/// Round trip: parsing the rendered text of any valid descriptor gives
/// back exactly that descriptor.
#[verifier::rlimit(100)]
pub proof fn lemma_upid_roundtrip(v: UpidView)
    requires
        v.valid(),
    ensures
        parse_upid_spec(upid_text(v)) == Some(v),
{
    crate::textenc::lemma_hex_pow_u64();
    let pid_h = hex_padded_upper(8, v.pid as nat);
    let pstart_h = hex_padded_upper(8, v.pstart as nat);
    let task_h = hex_padded_upper(8, v.task_id as nat);
    let start_h = hex_padded_upper(8, v.starttime as nat);
    lemma_hex_padded_upper_value(8, v.pid as nat);
    lemma_hex_padded_upper_value(8, v.pstart as nat);
    lemma_hex_padded_upper_value(8, v.task_id as nat);
    lemma_hex_padded_upper_value(8, v.starttime as nat);
    crate::textenc::lemma_hex_padded_upper_len_bound(8, v.pid as nat, 8);
    crate::textenc::lemma_hex_padded_upper_len_bound(8, v.pstart as nat, 9);
    assert((usize::MAX as nat) < crate::textenc::hex_pow(16));
    crate::textenc::lemma_hex_padded_upper_len_bound(8, v.task_id as nat, 16);
    crate::textenc::lemma_hex_padded_upper_len_bound(8, v.starttime as nat, 8);
    lemma_hex_colon_free(pid_h);
    lemma_hex_colon_free(pstart_h);
    lemma_hex_colon_free(task_h);
    lemma_hex_colon_free(start_h);

    let wid = match v.worker_id {
        Some(w) => w,
        None => Seq::<char>::empty(),
    };
    let t8 = v.username + ":"@ + Seq::<char>::empty();
    let t7 = wid + ":"@ + t8;
    let t6 = v.worker_type + ":"@ + t7;
    let t5 = start_h + ":"@ + t6;
    let t4 = task_h + ":"@ + t5;
    let t3 = pstart_h + ":"@ + t4;
    let t2 = pid_h + ":"@ + t3;
    let t1 = v.node + ":"@ + t2;
    let t0 = "UPID"@ + ":"@ + t1;
    assert(upid_text(v) =~= t0);

    assert(forall|i: int| 0 <= i < v.node.len() ==> (#[trigger] v.node[i]) != ':') by {
        assert(forall|i: int|
            0 <= i < v.node.len() ==> is_alnum(#[trigger] v.node[i]) || v.node[i] == '-');
    }
    reveal_strlit("UPID");
    assert("UPID"@ =~= seq!['U', 'P', 'I', 'D']);
    lemma_split_colon_prefix(v.username, Seq::<char>::empty());
    assert(t8 =~= v.username + ":"@ + Seq::<char>::empty());
    lemma_split_colon_prefix(wid, t8);
    lemma_split_colon_prefix(v.worker_type, t7);
    lemma_split_colon_prefix(start_h, t6);
    lemma_split_colon_prefix(task_h, t5);
    lemma_split_colon_prefix(pstart_h, t4);
    lemma_split_colon_prefix(pid_h, t3);
    lemma_split_colon_prefix(v.node, t2);
    lemma_split_colon_prefix("UPID"@, t1);
    assert(split_colon(Seq::<char>::empty()) =~~= seq![Seq::<char>::empty()]);
    let parts = seq![
        "UPID"@,
        v.node,
        pid_h,
        pstart_h,
        task_h,
        start_h,
        v.worker_type,
        wid,
        v.username,
        Seq::<char>::empty(),
    ];
    assert(split_colon(t0) =~~= parts);
    assert(parts[0] == "UPID"@);
    assert(parts[9].len() == 0);
    assert(parse_upid_spec(upid_text(v)) == Some(v));
}

proof fn lemma_full_subrange(s: Seq<char>)
    ensures
        s.subrange(0, s.len() as int) == s,
{
    assert(s.subrange(0, s.len() as int) =~= s);
}

/// A sequence of at most `k` hexadecimal digits stays below `16^k`.
proof fn lemma_hex_len_bound(s: Seq<char>, k: nat)
    requires
        s.len() <= k,
        all_hex_chars(s),
    ensures
        hex_seq_value(s) < crate::textenc::hex_pow(k),
    decreases k,
{
    crate::textenc::lemma_hex_value_nonneg(s);
    if s.len() == 0 {
        lemma_hex_pow_pos(k);
    } else {
        assert(all_hex_chars(s.drop_last())) by {
            assert(forall|i: int|
                0 <= i < s.len() - 1 ==> s.drop_last()[i] == #[trigger] s[i]);
        }
        lemma_hex_len_bound(s.drop_last(), (k - 1) as nat);
        assert(hex_seq_value(s) == hex_seq_value(s.drop_last()) * 16
            + crate::textenc::hex_char_value(s.last()));
        assert(is_hex_char(s[s.len() - 1]));
        assert(crate::textenc::hex_char_value(s.last()) <= 15);
        assert(hex_seq_value(s.drop_last()) * 16 + 16 <= crate::textenc::hex_pow(
            (k - 1) as nat,
        ) * 16) by (nonlinear_arith)
            requires
                hex_seq_value(s.drop_last()) < crate::textenc::hex_pow((k - 1) as nat),
        ;
        assert(crate::textenc::hex_pow(k) == 16 * crate::textenc::hex_pow((k - 1) as nat));
    }
}

proof fn lemma_hex_pow_pos(k: nat)
    ensures
        crate::textenc::hex_pow(k) >= 1,
    decreases k,
{
    if k > 0 {
        lemma_hex_pow_pos((k - 1) as nat);
    }
}

proof fn lemma_hex8_bound(s: Seq<char>)
    requires
        s.len() <= 8,
        all_hex_chars(s),
    ensures
        hex_seq_value(s) < 0x100000000,
{
    lemma_hex_len_bound(s, 8);
    assert(crate::textenc::hex_pow(8) == 0x100000000) by {
        assert(crate::textenc::hex_pow(0) == 1);
        assert(crate::textenc::hex_pow(1) == 16);
        assert(crate::textenc::hex_pow(2) == 0x100);
        assert(crate::textenc::hex_pow(3) == 0x1000);
        assert(crate::textenc::hex_pow(4) == 0x10000);
        assert(crate::textenc::hex_pow(5) == 0x100000);
        assert(crate::textenc::hex_pow(6) == 0x1000000);
        assert(crate::textenc::hex_pow(7) == 0x10000000);
        assert(crate::textenc::hex_pow(8) == 0x100000000);
    }
}

proof fn lemma_hex9_bound(s: Seq<char>)
    requires
        s.len() <= 9,
        all_hex_chars(s),
    ensures
        hex_seq_value(s) < 0x1000000000,
{
    lemma_hex_len_bound(s, 9);
    assert(crate::textenc::hex_pow(9) == 0x1000000000) by {
        assert(crate::textenc::hex_pow(0) == 1);
        assert(crate::textenc::hex_pow(1) == 16);
        assert(crate::textenc::hex_pow(2) == 0x100);
        assert(crate::textenc::hex_pow(3) == 0x1000);
        assert(crate::textenc::hex_pow(4) == 0x10000);
        assert(crate::textenc::hex_pow(5) == 0x100000);
        assert(crate::textenc::hex_pow(6) == 0x1000000);
        assert(crate::textenc::hex_pow(7) == 0x10000000);
        assert(crate::textenc::hex_pow(8) == 0x100000000);
        assert(crate::textenc::hex_pow(9) == 0x1000000000);
    }
}

/// Cut a character vector into its colon-separated parts.
fn split_at_colons(chars: &Vec<char>) -> (parts: Vec<Vec<char>>)
    ensures
        parts.deep_view() == split_colon(chars@),
{
    let mut parts: Vec<Vec<char>> = Vec::new();
    parts.push(Vec::new());
    let mut i: usize = 0;
    proof {
        assert(chars@.take(0) =~= Seq::<char>::empty());
        assert(parts.deep_view() =~~= split_colon(chars@.take(0)));
    }
    while i < chars.len()
        invariant
            i <= chars@.len(),
            parts@.len() >= 1,
            parts.deep_view() == split_colon(chars@.take(i as int)),
        decreases chars@.len() - i,
    {
        let c = chars[i];
        proof {
            assert(chars@.take(i + 1) =~= chars@.take(i as int).push(c));
            lemma_split_colon_snoc(chars@.take(i as int), c);
            lemma_split_colon_len(chars@.take(i as int));
        }
        if c == ':' {
            parts.push(Vec::new());
            proof {
                assert(parts.deep_view() =~~= split_colon(chars@.take(i + 1)));
            }
        } else {
            let last = parts.len() - 1;
            let ghost before = parts.deep_view();
            let mut tail = parts.remove(last);
            tail.push(c);
            parts.push(tail);
            proof {
                assert(parts.deep_view() =~~= before.update(
                    before.len() - 1,
                    before.last().push(c),
                ));
                assert(parts.deep_view() =~~= split_colon(chars@.take(i + 1)));
            }
        }
        i += 1;
    }
    assert(chars@.take(chars@.len() as int) =~= chars@);
    parts
}

/// Whether part `p` spells exactly the given text.
fn part_equals_str(parts: &Vec<Vec<char>>, p: usize, text: &str) -> (r: bool)
    requires
        p < parts@.len(),
    ensures
        r <==> parts@[p as int]@ == text@,
{
    let expected = str_to_chars(text);
    crate::strutil::chars_equal(&parts[p], &expected)
}

fn node_ok(part: &Vec<char>) -> (r: bool)
    ensures
        r == valid_node(part@),
{
    if part.len() == 0 {
        return false;
    }
    if !alnum(part[0]) || !alnum(part[part.len() - 1]) {
        return false;
    }
    let mut i: usize = 0;
    while i < part.len()
        invariant
            i <= part@.len(),
            forall|j: int| 0 <= j < i ==> is_alnum(#[trigger] part@[j]) || part@[j] == '-',
        decreases part@.len() - i,
    {
        let c = part[i];
        if !alnum(c) && c != '-' {
            return false;
        }
        i += 1;
    }
    true
}

/// Whether the part is free of whitespace (colons cannot occur in a
/// split part).
fn field_no_ws(part: &Vec<char>) -> (r: bool)
    requires
        forall|i: int| 0 <= i < part@.len() ==> (#[trigger] part@[i]) != ':',
    ensures
        r == valid_wid_chars(part@),
{
    let mut i: usize = 0;
    while i < part.len()
        invariant
            i <= part@.len(),
            forall|j: int|
                0 <= j < i ==> (#[trigger] part@[j]) != ':' && !is_whitespace_char(part@[j]),
            forall|j: int| 0 <= j < part@.len() ==> (#[trigger] part@[j]) != ':',
        decreases part@.len() - i,
    {
        if whitespace_char(part[i]) {
            return false;
        }
        i += 1;
    }
    true
}

} // verus!
