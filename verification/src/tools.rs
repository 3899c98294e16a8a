//! Small utilities around the request-handling core: configuration
//! change detection, URI path normalization, shutdown checks, whitespace
//! stripping and URL encoding.

use vstd::prelude::*;

use crate::strutil::{chars_equal, chars_to_string, str_to_chars};
use crate::textenc::hex_digit_upper;
use vstd::string::StringSliceAdditionalSpecFns;

verus! {

#[derive(Clone, Copy, Debug, PartialEq, Eq, Structural)]
pub enum ToolError {
    /// A configuration digest no longer matches: changed by another user.
    ModifiedConfiguration,
    /// A path holds `.`-prefixed (hidden or relative) components.
    IllegalPathComponent,
    /// The server is shutting down; the task must abort.
    ShutdownRequested,
}

/// Fail when two rendered configuration digests differ.
pub fn assert_if_modified(digest1: &str, digest2: &str) -> (r: Result<(), ToolError>)
    ensures
        r is Ok <==> digest1@ == digest2@,
        r is Err ==> r->Err_0 == ToolError::ModifiedConfiguration,
{
    let a = str_to_chars(digest1);
    let b = str_to_chars(digest2);
    if chars_equal(&a, &b) {
        Ok(())
    } else {
        Err(ToolError::ModifiedConfiguration)
    }
}

/// Fail when two binary configuration digests differ.
pub fn detect_modified_configuration_file(digest1: &[u8; 32], digest2: &[u8; 32]) -> (r: Result<
    (),
    ToolError,
>)
    ensures
        r is Ok <==> digest1@ == digest2@,
        r is Err ==> r->Err_0 == ToolError::ModifiedConfiguration,
{
    if crate::digests_equal(digest1, digest2) {
        Ok(())
    } else {
        Err(ToolError::ModifiedConfiguration)
    }
}

/// Fail when the shutdown flag has been raised.
pub fn fail_on_shutdown(shutdown_requested: bool) -> (r: Result<(), ToolError>)
    ensures
        r is Ok <==> !shutdown_requested,
        r is Err ==> r->Err_0 == ToolError::ShutdownRequested,
{
    if shutdown_requested {
        Err(ToolError::ShutdownRequested)
    } else {
        Ok(())
    }
}

/// ASCII whitespace: space, tab, line feed, form feed, carriage return.
pub open spec fn is_ascii_ws(b: u8) -> bool {
    b == 9 || b == 10 || b == 12 || b == 13 || b == 32
}

pub open spec fn drop_leading_ws(s: Seq<u8>) -> Seq<u8>
    decreases s.len(),
{
    if s.len() > 0 && is_ascii_ws(s.first()) {
        drop_leading_ws(s.drop_first())
    } else {
        s
    }
}

pub open spec fn drop_trailing_ws(s: Seq<u8>) -> Seq<u8>
    decreases s.len(),
{
    if s.len() > 0 && is_ascii_ws(s.last()) {
        drop_trailing_ws(s.drop_last())
    } else {
        s
    }
}

proof fn lemma_drop_leading_ws(s: Seq<u8>, a: int)
    requires
        0 <= a <= s.len(),
        forall|m: int| 0 <= m < a ==> is_ascii_ws(#[trigger] s[m]),
        a == s.len() || !is_ascii_ws(s[a]),
    ensures
        drop_leading_ws(s) == s.skip(a),
    decreases a,
{
    if a == 0 {
        assert(s.skip(0) =~= s);
        if s.len() > 0 {
            assert(!is_ascii_ws(s.first()));
        }
    } else {
        assert(is_ascii_ws(s.first()));
        assert(forall|m: int| 0 <= m < a - 1 ==> is_ascii_ws(#[trigger] s.drop_first()[m]));
        if a < s.len() {
            assert(s.drop_first()[a - 1] == s[a]);
        }
        lemma_drop_leading_ws(s.drop_first(), a - 1);
        assert(s.drop_first().skip(a - 1) =~= s.skip(a));
    }
}

proof fn lemma_drop_trailing_ws(s: Seq<u8>, b: int)
    requires
        0 <= b <= s.len(),
        forall|m: int| b <= m < s.len() ==> is_ascii_ws(#[trigger] s[m]),
        b == 0 || !is_ascii_ws(s[b - 1]),
    ensures
        drop_trailing_ws(s) == s.take(b),
    decreases s.len(),
{
    if b == s.len() {
        assert(s.take(b) =~= s);
        if s.len() > 0 {
            assert(!is_ascii_ws(s.last()));
        }
    } else {
        assert(is_ascii_ws(s.last()));
        assert(forall|m: int|
            b <= m < s.len() - 1 ==> is_ascii_ws(#[trigger] s.drop_last()[m]));
        if b > 0 {
            assert(s.drop_last()[b - 1] == s[b - 1]);
        }
        lemma_drop_trailing_ws(s.drop_last(), b);
        assert(s.drop_last().take(b) =~= s.take(b));
    }
}

/// Strip leading and trailing ASCII whitespace from a byte line.
pub fn strip_ascii_whitespace(line: &[u8]) -> (r: &[u8])
    ensures
        r@ == drop_trailing_ws(drop_leading_ws(line@)),
{
    let n = line.len();
    let mut a: usize = 0;
    while a < n && (line[a] == 9 || line[a] == 10 || line[a] == 12 || line[a] == 13 || line[a]
        == 32)
        invariant
            a <= n,
            n == line@.len(),
            forall|m: int| 0 <= m < a ==> is_ascii_ws(#[trigger] line@[m]),
        decreases n - a,
    {
        a += 1;
    }
    proof {
        lemma_drop_leading_ws(line@, a as int);
    }
    if a == n {
        proof {
            assert(line@.skip(a as int) =~= Seq::<u8>::empty());
            assert(drop_trailing_ws(Seq::<u8>::empty()) =~= Seq::<u8>::empty());
        }
        let r = &line[0..0];
        assert(r@ =~= Seq::<u8>::empty());
        return r;
    }
    let mut b: usize = n;
    while b > a && (line[b - 1] == 9 || line[b - 1] == 10 || line[b - 1] == 12 || line[b - 1]
        == 13 || line[b - 1] == 32)
        invariant
            a <= b <= n,
            n == line@.len(),
            forall|m: int| b <= m < n ==> is_ascii_ws(#[trigger] line@[m]),
            !is_ascii_ws(line@[a as int]),
        decreases b,
    {
        b -= 1;
    }
    proof {
        assert(b > a);
        let inner = line@.skip(a as int);
        assert(forall|m: int|
            b - a <= m < inner.len() ==> is_ascii_ws(#[trigger] inner[m]));
        assert(!is_ascii_ws(inner[b - a - 1]));
        lemma_drop_trailing_ws(inner, b - a);
        assert(inner.take(b - a) =~= line@.subrange(a as int, b as int));
    }
    &line[a..b]
}

// ---------------------------------------------------------------------
// URI path normalization
// ---------------------------------------------------------------------
/// The leading run of non-slash characters.
pub open spec fn take_component(s: Seq<char>) -> Seq<char>
    decreases s.len(),
{
    if s.len() == 0 || s[0] == '/' {
        Seq::empty()
    } else {
        seq![s[0]] + take_component(s.drop_first())
    }
}

/// The non-empty slash-separated components of a path, in order.
pub open spec fn norm_components(s: Seq<char>) -> Seq<Seq<char>>
    decreases s.len(),
    via norm_components_dec
{
    if s.len() == 0 {
        Seq::empty()
    } else if s[0] == '/' {
        norm_components(s.drop_first())
    } else {
        seq![take_component(s)] + norm_components(s.skip(take_component(s).len() as int))
    }
}

#[via_fn]
proof fn norm_components_dec(s: Seq<char>) {
    if s.len() > 0 && s[0] != '/' {
        assert(take_component(s) == seq![s[0]] + take_component(s.drop_first()));
        assert(take_component(s).len() >= 1);
        lemma_take_component_le(s.drop_first());
    }
}

proof fn lemma_take_component_le(s: Seq<char>)
    ensures
        take_component(s).len() <= s.len(),
    decreases s.len(),
{
    if s.len() > 0 && s[0] != '/' {
        lemma_take_component_le(s.drop_first());
    }
}

/// The normalized path text: one slash before each component.
pub open spec fn joined_path(comps: Seq<Seq<char>>) -> Seq<char>
    decreases comps.len(),
{
    if comps.len() == 0 {
        Seq::empty()
    } else {
        joined_path(comps.drop_last()) + "/"@ + comps.last()
    }
}

/// A component is the input up to its first slash.
proof fn lemma_take_component(s: Seq<char>, k: int)
    requires
        0 <= k <= s.len(),
        forall|m: int| 0 <= m < k ==> (#[trigger] s[m]) != '/',
        k == s.len() || s[k] == '/',
    ensures
        take_component(s) == s.take(k),
    decreases k,
{
    if k == 0 {
        assert(s.take(0) =~= Seq::<char>::empty());
    } else {
        assert(s[0] != '/');
        assert(forall|m: int|
            0 <= m < k - 1 ==> (#[trigger] s.drop_first()[m]) != '/');
        if k < s.len() {
            assert(s.drop_first()[k - 1] == s[k]);
        }
        lemma_take_component(s.drop_first(), k - 1);
        assert(seq![s[0]] + s.drop_first().take(k - 1) =~= s.take(k));
    }
}

/// Normalize a URI path.
///
/// Empty components are removed; components beginning with a dot —
/// relative steps and hidden names — are rejected. On success the
/// first result is the path re-joined with single slashes, the second
/// its components.
pub fn normalize_uri_path(path: &str) -> (r: Result<(String, Vec<String>), ToolError>)
    ensures
        r is Ok <==> (forall|i: int|
            0 <= i < norm_components(path@).len() ==> (#[trigger] norm_components(
                path@,
            )[i])[0] != '.'),
        r matches Ok((p, comps)) ==> p@ == joined_path(norm_components(path@))
            && comps.deep_view() == norm_components(path@),
        r is Err ==> r->Err_0 == ToolError::IllegalPathComponent,
{
    let chars = str_to_chars(path);
    let n = chars.len();
    let mut out: Vec<char> = Vec::new();
    let mut components: Vec<String> = Vec::new();
    let ghost whole = norm_components(path@);
    let ghost done: Seq<Seq<char>> = Seq::empty();
    let mut i: usize = 0;
    proof {
        assert(path@.skip(0) =~= path@);
    }
    while i < n
        invariant
            i <= n,
            n == chars@.len(),
            chars@ == path@,
            whole == norm_components(path@),
            norm_components(path@.skip(i as int)) =~= whole.skip(
                components.deep_view().len() as int,
            ),
            components.deep_view() =~= whole.take(components.deep_view().len() as int),
            components.deep_view().len() <= whole.len(),
            out@ == joined_path(components.deep_view()),
            forall|k: int|
                0 <= k < components.deep_view().len() ==> (#[trigger] whole[k])[0] != '.',
        decreases n - i,
    {
        if chars[i] == '/' {
            proof {
                let rest = path@.skip(i as int);
                assert(rest[0] == '/');
                assert(rest.drop_first() =~= path@.skip(i + 1));
            }
            i += 1;
        } else {
        // start of a component
        let start = i;
        let mut j = i;
        while j < n && chars[j] != '/'
            invariant
                start <= j <= n,
                n == chars@.len(),
                forall|m: int| start <= m < j ==> (#[trigger] chars@[m]) != '/',
            decreases n - j,
        {
            j += 1;
        }
        proof {
            let rest = path@.skip(start as int);
            assert(forall|m: int|
                0 <= m < j - start ==> rest[m] == #[trigger] chars@[start + m]);
            assert(forall|m: int| 0 <= m < j - start ==> (#[trigger] rest[m]) != '/');
            if j < n {
                assert(rest[j - start] == chars@[j as int]);
            }
            lemma_take_component(rest, j - start);
            assert(rest.take(j - start) =~= path@.subrange(start as int, j as int));
            assert(norm_components(rest) == seq![take_component(rest)] + norm_components(
                rest.skip(take_component(rest).len() as int),
            ));
            assert(rest.skip(j - start) =~= path@.skip(j as int));
        }
        if chars[start] == '.' {
            proof {
                let rest = path@.skip(start as int);
                let comp = path@.subrange(start as int, j as int);
                let idx = components.deep_view().len() as int;
                assert(rest[0] == chars@[start as int]);
                assert(whole.skip(idx).len() >= 1);
                assert(whole.skip(idx)[0] == whole[idx]);
                assert(whole.skip(idx)[0] == comp);
                assert(comp[0] == '.');
            }
            return Err(ToolError::IllegalPathComponent);
        }
        let mut comp: Vec<char> = Vec::new();
        let mut m = start;
        out.push('/');
        while m < j
            invariant
                start <= m <= j <= n,
                n == chars@.len(),
                comp@ == chars@.subrange(start as int, m as int),
            decreases j - m,
        {
            comp.push(chars[m]);
            proof {
                assert(chars@.subrange(start as int, m + 1) =~= chars@.subrange(
                    start as int,
                    m as int,
                ).push(chars@[m as int]));
            }
            m += 1;
        }
        let mut o: usize = 0;
        while o < comp.len()
            invariant
                o <= comp@.len(),
                out@ == joined_path(components.deep_view()).push('/') + comp@.take(o as int),
            decreases comp@.len() - o,
        {
            out.push(comp[o]);
            proof {
                assert(joined_path(components.deep_view()).push('/') + comp@.take(o + 1)
                    =~= (joined_path(components.deep_view()).push('/') + comp@.take(
                    o as int,
                )).push(comp@[o as int]));
            }
            o += 1;
        }
        let ghost prev = components.deep_view();
        let comp_string = chars_to_string(&comp);
        components.push(comp_string);
        proof {
            let rest = path@.skip(start as int);
            let cv = path@.subrange(start as int, j as int);
            assert(comp@.take(comp@.len() as int) =~= comp@);
            assert(components.deep_view() =~= prev.push(cv));
            let idx = prev.len() as int;
            assert(rest[0] == chars@[start as int]);
            assert(whole.skip(idx).len() >= 1);
            assert(whole.skip(idx)[0] == whole[idx]);
            assert(whole.skip(idx)[0] == cv);
            assert(whole[idx] == cv);
            assert(components.deep_view() =~= whole.take(idx + 1));
            assert(components.deep_view().drop_last() =~= prev);
            assert(joined_path(components.deep_view()) == joined_path(prev) + "/"@ + cv);
            reveal_strlit("/");
            assert(joined_path(prev).push('/') =~= joined_path(prev) + "/"@);
            assert(out@ =~= joined_path(components.deep_view()));
            assert(take_component(rest).len() == j - start);
            assert(norm_components(rest) == seq![take_component(rest)] + norm_components(
                rest.skip(j - start),
            ));
            assert(norm_components(rest.skip(j - start)) == norm_components(
                path@.skip(j as int),
            ));
            assert(whole.skip(idx) =~= seq![cv] + norm_components(path@.skip(j as int)));
            assert(whole.skip(idx).drop_first() =~= norm_components(path@.skip(j as int)));
            assert(whole.skip(idx).drop_first() =~= whole.skip(idx + 1));
            assert(norm_components(path@.skip(j as int)) =~= whole.skip(idx + 1));
        }
        i = j;
        }
    }
    proof {
        assert(path@.skip(n as int) =~= Seq::<char>::empty());
        assert(norm_components(Seq::<char>::empty()) =~= Seq::<Seq<char>>::empty());
        assert(components.deep_view() =~= whole);
    }
    let path_string = chars_to_string(&out);
    Ok((path_string, components))
}

// ---------------------------------------------------------------------
// URL encoding
// ---------------------------------------------------------------------
pub open spec fn is_url_plain(b: u8) -> bool {
    (48 <= b <= 57) || (97 <= b <= 122) || (65 <= b <= 90)
}

/// Percent-encoding of a byte stream that keeps only ASCII
/// alphanumerics, the encoding every other byte as `%XX`.
pub open spec fn percent_encoded(s: Seq<u8>) -> Seq<char>
    decreases s.len(),
{
    if s.len() == 0 {
        Seq::empty()
    } else {
        percent_encoded(s.drop_last()) + (if is_url_plain(s.last()) {
            seq![s.last() as char]
        } else {
            seq!['%', hex_digit_upper(s.last() as int / 16), hex_digit_upper(s.last() as int % 16)]
        })
    }
}

/// Percent-encode a URL component: every byte but ASCII alphanumerics
/// becomes `%XX`.
pub fn percent_encode_component(comp: &str) -> (r: String)
    ensures
        r@ == percent_encoded(comp.spec_bytes()),
{
    let bytes = comp.as_bytes();
    let mut out: Vec<char> = Vec::new();
    let mut i: usize = 0;
    while i < bytes.len()
        invariant
            i <= bytes@.len(),
            out@ == percent_encoded(bytes@.take(i as int)),
        decreases bytes@.len() - i,
    {
        let b = bytes[i];
        if (48 <= b && b <= 57) || (97 <= b && b <= 122) || (65 <= b && b <= 90) {
            out.push(b as char);
        } else {
            out.push('%');
            out.push(hex_upper_char(b / 16));
            out.push(hex_upper_char(b % 16));
        }
        proof {
            let t = bytes@.take(i + 1);
            assert(t.drop_last() =~= bytes@.take(i as int));
            assert(t.last() == bytes@[i as int]);
            assert(out@ =~= percent_encoded(t));
        }
        i += 1;
    }
    proof {
        assert(bytes@.take(bytes@.len() as int) =~= bytes@);
    }
    chars_to_string(&out)
}

fn hex_upper_char(d: u8) -> (c: char)
    requires
        d < 16,
    ensures
        c == hex_digit_upper(d as int),
{
    match d {
        0 => '0',
        1 => '1',
        2 => '2',
        3 => '3',
        4 => '4',
        5 => '5',
        6 => '6',
        7 => '7',
        8 => '8',
        9 => '9',
        10 => 'A',
        11 => 'B',
        12 => 'C',
        13 => 'D',
        14 => 'E',
        _ => 'F',
    }
}

/// A byte the form encoding keeps as it is: ASCII alphanumerics and
/// `*`, `-`, `.`, `_`.
pub open spec fn is_form_plain(b: u8) -> bool {
    (48 <= b <= 57) || (97 <= b <= 122) || (65 <= b <= 90) || b == 42 || b == 45 || b == 46
        || b == 95
}

/// The `application/x-www-form-urlencoded` encoding of a byte stream:
/// plain bytes kept, space as `+`, everything else as `%XX`.
pub open spec fn form_encoded(s: Seq<u8>) -> Seq<char>
    decreases s.len(),
{
    if s.len() == 0 {
        Seq::empty()
    } else {
        form_encoded(s.drop_last()) + (if is_form_plain(s.last()) {
            seq![s.last() as char]
        } else if s.last() == 32 {
            seq!['+']
        } else {
            seq!['%', hex_digit_upper(s.last() as int / 16), hex_digit_upper(s.last() as int % 16)]
        })
    }
}

fn push_form_encoded(out: &mut Vec<char>, bytes: &[u8])
    ensures
        final(out)@ == old(out)@ + form_encoded(bytes@),
{
    let ghost orig = out@;
    let mut i: usize = 0;
    while i < bytes.len()
        invariant
            i <= bytes@.len(),
            out@ == orig + form_encoded(bytes@.take(i as int)),
        decreases bytes@.len() - i,
    {
        let b = bytes[i];
        if (48 <= b && b <= 57) || (97 <= b && b <= 122) || (65 <= b && b <= 90) || b == 42
            || b == 45 || b == 46 || b == 95 {
            out.push(b as char);
        } else if b == 32 {
            out.push('+');
        } else {
            out.push('%');
            out.push(hex_upper_char(b / 16));
            out.push(hex_upper_char(b % 16));
        }
        proof {
            let t = bytes@.take(i + 1);
            assert(t.drop_last() =~= bytes@.take(i as int));
            assert(t.last() == bytes@[i as int]);
            assert(out@ =~= orig + form_encoded(t));
        }
        i += 1;
    }
    proof {
        assert(bytes@.take(bytes@.len() as int) =~= bytes@);
    }
}

/// One `key=value` pair of a query string.
pub open spec fn form_pair_text(key: Seq<u8>, value: Seq<u8>) -> Seq<char> {
    form_encoded(key) + "="@ + form_encoded(value)
}

/// A whole query string: the pairs form-encoded and joined with `&`.
pub open spec fn query_text(pairs: Seq<(Seq<u8>, Seq<u8>)>) -> Seq<char>
    decreases pairs.len(),
{
    if pairs.len() == 0 {
        Seq::empty()
    } else if pairs.len() == 1 {
        form_pair_text(pairs[0].0, pairs[0].1)
    } else {
        query_text(pairs.drop_last()) + "&"@ + form_pair_text(pairs.last().0, pairs.last().1)
    }
}

/// Serialize key-value pairs as a form-urlencoded query string, the
/// flat pairs a JSON parameter object reduces to.
pub fn query_from_pairs(pairs: &Vec<(String, String)>) -> (r: String)
    ensures
        r@ == query_text(
            Seq::new(
                pairs@.len(),
                |i: int|
                    (vstd::utf8::encode_utf8(pairs@[i].0@), vstd::utf8::encode_utf8(
                        pairs@[i].1@,
                    )),
            ),
        ),
{
    let ghost byte_pairs = Seq::new(
        pairs@.len(),
        |i: int| (vstd::utf8::encode_utf8(pairs@[i].0@), vstd::utf8::encode_utf8(pairs@[i].1@)),
    );
    let mut out: Vec<char> = Vec::new();
    let mut i: usize = 0;
    while i < pairs.len()
        invariant
            i <= pairs@.len(),
            byte_pairs == Seq::new(
                pairs@.len(),
                |k: int|
                    (vstd::utf8::encode_utf8(pairs@[k].0@), vstd::utf8::encode_utf8(
                        pairs@[k].1@,
                    )),
            ),
            out@ == query_text(byte_pairs.take(i as int)),
        decreases pairs@.len() - i,
    {
        if i > 0 {
            crate::strutil::push_chars(&mut out, "&");
        }
        let (key, value) = &pairs[i];
        push_form_encoded(&mut out, key.as_str().as_bytes());
        crate::strutil::push_chars(&mut out, "=");
        push_form_encoded(&mut out, value.as_str().as_bytes());
        proof {
            let t = byte_pairs.take(i + 1);
            assert(t.drop_last() =~= byte_pairs.take(i as int));
            assert(t.last() == byte_pairs[i as int]);
            assert(out@ =~= query_text(t));
        }
        i += 1;
    }
    proof {
        assert(byte_pairs.take(byte_pairs.len() as int) =~= byte_pairs);
    }
    chars_to_string(&out)
}

/// Leading whitespace removed, by the Unicode white-space property.
pub open spec fn trim_leading(s: Seq<char>) -> Seq<char>
    decreases s.len(),
{
    if s.len() > 0 && crate::upid::is_whitespace_char(s.first()) {
        trim_leading(s.drop_first())
    } else {
        s
    }
}

/// Trailing whitespace removed, by the Unicode white-space property.
pub open spec fn trim_trailing(s: Seq<char>) -> Seq<char>
    decreases s.len(),
{
    if s.len() > 0 && crate::upid::is_whitespace_char(s.last()) {
        trim_trailing(s.drop_last())
    } else {
        s
    }
}

proof fn lemma_trim_leading(s: Seq<char>, a: int)
    requires
        0 <= a <= s.len(),
        forall|m: int| 0 <= m < a ==> crate::upid::is_whitespace_char(#[trigger] s[m]),
        a == s.len() || !crate::upid::is_whitespace_char(s[a]),
    ensures
        trim_leading(s) == s.skip(a),
    decreases a,
{
    if a == 0 {
        assert(s.skip(0) =~= s);
    } else {
        assert(crate::upid::is_whitespace_char(s.first()));
        assert(forall|m: int|
            0 <= m < a - 1 ==> crate::upid::is_whitespace_char(
                #[trigger] s.drop_first()[m],
            ));
        if a < s.len() {
            assert(s.drop_first()[a - 1] == s[a]);
        }
        lemma_trim_leading(s.drop_first(), a - 1);
        assert(s.drop_first().skip(a - 1) =~= s.skip(a));
    }
}

proof fn lemma_trim_trailing(s: Seq<char>, b: int)
    requires
        0 <= b <= s.len(),
        forall|m: int| b <= m < s.len() ==> crate::upid::is_whitespace_char(#[trigger] s[m]),
        b == 0 || !crate::upid::is_whitespace_char(s[b - 1]),
    ensures
        trim_trailing(s) == s.take(b),
    decreases s.len(),
{
    if b == s.len() {
        assert(s.take(b) =~= s);
    } else {
        assert(crate::upid::is_whitespace_char(s.last()));
        assert(forall|m: int|
            b <= m < s.len() - 1 ==> crate::upid::is_whitespace_char(
                #[trigger] s.drop_last()[m],
            ));
        if b > 0 {
            assert(s.drop_last()[b - 1] == s[b - 1]);
        }
        lemma_trim_trailing(s.drop_last(), b);
        assert(s.drop_last().take(b) =~= s.take(b));
    }
}

/// The trimmed line, when it is neither empty nor a `#` comment.
pub open spec fn non_comment_line_spec(s: Seq<char>) -> Option<Seq<char>> {
    let t = trim_trailing(trim_leading(s));
    if t.len() == 0 || t[0] == '#' {
        None
    } else {
        Some(t)
    }
}

/// Trim a configuration line and keep it unless it is empty or a
/// comment.
pub fn non_comment_line(line: &str) -> (r: Option<String>)
    ensures
        match r {
            Some(kept) => non_comment_line_spec(line@) == Some(kept@),
            None => non_comment_line_spec(line@) is None,
        },
{
    let chars = str_to_chars(line);
    let n = chars.len();
    let mut a: usize = 0;
    while a < n && whitespace(chars[a])
        invariant
            a <= n,
            n == chars@.len(),
            forall|m: int|
                0 <= m < a ==> crate::upid::is_whitespace_char(#[trigger] chars@[m]),
        decreases n - a,
    {
        a += 1;
    }
    proof {
        lemma_trim_leading(chars@, a as int);
    }
    if a == n {
        proof {
            assert(chars@.skip(a as int) =~= Seq::<char>::empty());
            assert(trim_trailing(Seq::<char>::empty()) =~= Seq::<char>::empty());
        }
        return None;
    }
    let mut b: usize = n;
    while b > a && whitespace(chars[b - 1])
        invariant
            a <= b <= n,
            n == chars@.len(),
            forall|m: int|
                b <= m < n ==> crate::upid::is_whitespace_char(#[trigger] chars@[m]),
            !crate::upid::is_whitespace_char(chars@[a as int]),
        decreases b,
    {
        b -= 1;
    }
    proof {
        let inner = chars@.skip(a as int);
        assert(forall|m: int|
            b - a <= m < inner.len() ==> crate::upid::is_whitespace_char(
                #[trigger] inner[m],
            ));
        assert(!crate::upid::is_whitespace_char(inner[b - a - 1]));
        lemma_trim_trailing(inner, b - a);
        assert(inner.take(b - a) =~= chars@.subrange(a as int, b as int));
    }
    if chars[a] == '#' {
        return None;
    }
    let mut kept: Vec<char> = Vec::new();
    let mut m = a;
    while m < b
        invariant
            a <= m <= b <= n,
            n == chars@.len(),
            kept@ == chars@.subrange(a as int, m as int),
        decreases b - m,
    {
        kept.push(chars[m]);
        assert(chars@.subrange(a as int, m + 1) =~= chars@.subrange(a as int, m as int).push(
            chars@[m as int],
        ));
        m += 1;
    }
    Some(chars_to_string(&kept))
}

fn whitespace(c: char) -> (r: bool)
    ensures
        r == crate::upid::is_whitespace_char(c),
{
    match c {
        '\u{9}' | '\u{A}' | '\u{B}' | '\u{C}' | '\u{D}' | ' ' | '\u{85}' | '\u{A0}'
            | '\u{1680}' | '\u{2000}' | '\u{2001}' | '\u{2002}' | '\u{2003}' | '\u{2004}'
            | '\u{2005}' | '\u{2006}' | '\u{2007}' | '\u{2008}' | '\u{2009}' | '\u{200A}'
            | '\u{2028}' | '\u{2029}' | '\u{202F}' | '\u{205F}' | '\u{3000}' => true,
        _ => false,
    }
}

pub open spec fn is_hex_byte(b: u8) -> bool {
    (48 <= b <= 57) || (97 <= b <= 102) || (65 <= b <= 70)
}

/// The numeric value of an ASCII hexadecimal digit byte, or 16.
pub open spec fn hex_byte_value(b: u8) -> int {
    if 48 <= b <= 57 {
        b - 48
    } else if 97 <= b <= 102 {
        b - 87
    } else if 65 <= b <= 70 {
        b - 55
    } else {
        16
    }
}

/// Percent-decoding of a byte stream: `%` followed by two hexadecimal
/// digits becomes that byte; every other byte — a malformed `%`
/// included — passes through unchanged.
pub open spec fn percent_decoded(s: Seq<u8>) -> Seq<u8>
    decreases s.len(),
{
    if s.len() == 0 {
        Seq::empty()
    } else if s[0] == 37 && s.len() >= 3 && is_hex_byte(s[1]) && is_hex_byte(s[2]) {
        seq![(hex_byte_value(s[1]) * 16 + hex_byte_value(s[2])) as u8] + percent_decoded(
            s.skip(3),
        )
    } else {
        seq![s[0]] + percent_decoded(s.skip(1))
    }
}

fn hex_byte(b: u8) -> (r: bool)
    ensures
        r == is_hex_byte(b),
{
    (48 <= b && b <= 57) || (97 <= b && b <= 102) || (65 <= b && b <= 70)
}

/// Percent-decode a byte stream.
#[verifier::loop_isolation(false)]
fn percent_decode_bytes(bytes: &[u8]) -> (out: Vec<u8>)
    ensures
        out@ == percent_decoded(bytes@),
{
    let n = bytes.len();
    let mut out: Vec<u8> = Vec::new();
    let mut i: usize = 0;
    proof {
        assert(bytes@.skip(0) =~= bytes@);
    }
    while i < n
        invariant
            i <= n,
            percent_decoded(bytes@) == out@ + percent_decoded(bytes@.skip(i as int)),
        decreases n - i,
    {
        let ghost rest = bytes@.skip(i as int);
        proof {
            assert(rest[0] == bytes@[i as int]);
            if rest.len() >= 3 {
                assert(rest[1] == bytes@[i + 1]);
                assert(rest[2] == bytes@[i + 2]);
            }
        }
        if bytes[i] == 37 && n - i > 2 && hex_byte(bytes[i + 1]) && hex_byte(bytes[i + 2]) {
            let hi = bytes[i + 1];
            let lo = bytes[i + 2];
            let hv: u8 = if 48 <= hi && hi <= 57 {
                hi - 48
            } else if 97 <= hi && hi <= 102 {
                hi - 87
            } else {
                hi - 55
            };
            let lv: u8 = if 48 <= lo && lo <= 57 {
                lo - 48
            } else if 97 <= lo && lo <= 102 {
                lo - 87
            } else {
                lo - 55
            };
            out.push(hv * 16 + lv);
            proof {
                assert(rest.skip(3) =~= bytes@.skip(i + 3));
                assert(out@ + percent_decoded(bytes@.skip(i + 3)) =~= percent_decoded(
                    bytes@,
                ));
            }
            i += 3;
        } else {
            out.push(bytes[i]);
            proof {
                assert(rest.skip(1) =~= bytes@.skip(i + 1));
                assert(out@ + percent_decoded(bytes@.skip(i + 1)) =~= percent_decoded(
                    bytes@,
                ));
            }
            i += 1;
        }
    }
    proof {
        assert(bytes@.skip(n as int) =~= Seq::<u8>::empty());
        assert(out@ =~= percent_decoded(bytes@));
    }
    out
}

/// First position of `c` in `chars[from..]`, or the vector's length.
fn find_char_from(chars: &Vec<char>, from: usize, c: char) -> (r: usize)
    requires
        from <= chars@.len(),
    ensures
        from <= r <= chars@.len(),
        r < chars@.len() ==> chars@[r as int] == c,
        forall|m: int| from <= m < r ==> (#[trigger] chars@[m]) != c,
{
    let mut i = from;
    while i < chars.len()
        invariant
            from <= i <= chars@.len(),
            forall|m: int| from <= m < i ==> (#[trigger] chars@[m]) != c,
        decreases chars@.len() - i,
    {
        if chars[i] == c {
            return i;
        }
        i += 1;
    }
    chars.len()
}

/// The bounds of `chars[start..end]` with surrounding whitespace
/// removed.
fn trim_bounds(chars: &Vec<char>, start: usize, end: usize) -> (r: (usize, usize))
    requires
        start <= end <= chars@.len(),
    ensures
        ({
            let (a, b) = r;
            &&& start <= a <= b <= end
            &&& chars@.subrange(a as int, b as int) == trim_trailing(
                trim_leading(chars@.subrange(start as int, end as int)),
            )
        }),
{
    let ghost piece = chars@.subrange(start as int, end as int);
    let mut a = start;
    while a < end && whitespace(chars[a])
        invariant
            start <= a <= end <= chars@.len(),
            piece == chars@.subrange(start as int, end as int),
            forall|m: int|
                0 <= m < a - start ==> crate::upid::is_whitespace_char(#[trigger] piece[m]),
        decreases end - a,
    {
        proof {
            assert(piece[a - start] == chars@[a as int]);
        }
        a += 1;
    }
    proof {
        if a < end {
            assert(piece[a - start] == chars@[a as int]);
        }
        lemma_trim_leading(piece, a - start);
    }
    if a == end {
        proof {
            assert(piece.skip(a - start) =~= Seq::<char>::empty());
            assert(trim_trailing(Seq::<char>::empty()) =~= Seq::<char>::empty());
            assert(chars@.subrange(a as int, a as int) =~= Seq::<char>::empty());
        }
        return (a, a);
    }
    let mut b = end;
    while b > a && whitespace(chars[b - 1])
        invariant
            start <= a <= b <= end,
            end <= chars@.len(),
            piece == chars@.subrange(start as int, end as int),
            forall|m: int|
                b - start <= m < end - start ==> crate::upid::is_whitespace_char(
                    #[trigger] piece[m],
                ),
            !crate::upid::is_whitespace_char(chars@[a as int]),
        decreases b,
    {
        proof {
            assert(piece[b - 1 - start] == chars@[b - 1]);
        }
        b -= 1;
    }
    proof {
        let inner = piece.skip(a - start);
        assert(forall|m: int|
            b - a <= m < inner.len() ==> crate::upid::is_whitespace_char(#[trigger] inner[m]));
        assert(inner[0] == chars@[a as int]);
        assert(!crate::upid::is_whitespace_char(inner[b - a - 1]) || b == a) by {
            if b > a {
                assert(inner[b - a - 1] == piece[b - 1 - start]);
                assert(piece[b - 1 - start] == chars@[b - 1]);
            }
        }
        lemma_trim_trailing(inner, b - a);
        assert(inner.take(b - a) =~= chars@.subrange(a as int, b as int));
    }
    (a, b)
}

/// Copy a character range out of a vector.
fn copy_char_range(chars: &Vec<char>, a: usize, b: usize) -> (r: Vec<char>)
    requires
        a <= b <= chars@.len(),
    ensures
        r@ == chars@.subrange(a as int, b as int),
{
    let mut r: Vec<char> = Vec::new();
    let mut m = a;
    while m < b
        invariant
            a <= m <= b <= chars@.len(),
            r@ == chars@.subrange(a as int, m as int),
        decreases b - m,
    {
        r.push(chars[m]);
        assert(chars@.subrange(a as int, m + 1) =~= chars@.subrange(a as int, m as int).push(
            chars@[m as int],
        ));
        m += 1;
    }
    r
}

/// The decoded bytes of the named cookie in a Cookie header: pairs
/// separated by `;`, a pair's first `=` splitting name from value,
/// both trimmed; a pair without `=` is a format error that ends the
/// scan; the matching value is percent-decoded at the byte level.
pub open spec fn cookie_value_bytes(s: Seq<char>, name: Seq<char>) -> Option<Seq<u8>>
    decreases s.len(),
    via cookie_value_bytes_dec
{
    let pe = crate::worker::first_index_of(s, ';');
    let pair = s.take(pe);
    let eq = crate::worker::first_index_of(pair, '=');
    if eq == pair.len() {
        None
    } else {
        let pname = trim_trailing(trim_leading(pair.take(eq)));
        let pval = trim_trailing(trim_leading(pair.skip(eq + 1)));
        if pname == name {
            Some(percent_decoded(vstd::utf8::encode_utf8(pval)))
        } else if pe < s.len() {
            cookie_value_bytes(s.skip(pe + 1), name)
        } else {
            None
        }
    }
}

#[via_fn]
proof fn cookie_value_bytes_dec(s: Seq<char>, name: Seq<char>) {
    crate::worker::lemma_first_index_of_bounds(s, ';');
}

/// Extract a cookie from a Cookie header: find the named pair, trim
/// name and value, percent-decode the value and read it back as UTF-8.
/// The name is expected to be url-encoded already.
#[verifier::loop_isolation(false)]
pub fn extract_cookie(cookie: &str, cookie_name: &str) -> (r: Option<String>)
    ensures
        match r {
            Some(out) => (match cookie_value_bytes(cookie@, cookie_name@) {
                Some(b) => vstd::utf8::valid_utf8(b) && out@ == vstd::utf8::decode_utf8(b),
                None => false,
            }),
            None => (match cookie_value_bytes(cookie@, cookie_name@) {
                Some(b) => !vstd::utf8::valid_utf8(b),
                None => true,
            }),
        },
{
    let chars = str_to_chars(cookie);
    let name = str_to_chars(cookie_name);
    let n = chars.len();
    let mut pos: usize = 0;
    proof {
        assert(chars@.skip(0) =~= chars@);
    }
    loop
        invariant
            pos <= n,
            cookie_value_bytes(chars@.skip(pos as int), name@) == cookie_value_bytes(
                cookie@,
                cookie_name@,
            ),
        decreases n - pos,
    {
        let ghost rest = chars@.skip(pos as int);
        let pe = find_char_from(&chars, pos, ';');
        proof {
            assert(forall|m: int| 0 <= m < rest.len() ==> rest[m] == #[trigger] chars@[pos + m]);
            assert(forall|m: int| 0 <= m < pe - pos ==> (#[trigger] rest[m]) != ';');
            if pe < n {
                assert(rest[pe - pos] == ';');
            }
            crate::worker::lemma_first_index_of(rest, ';', pe - pos);
        }
        let ghost pair = rest.take(pe - pos);
        let eq = find_char_from(&chars, pos, '=');
        proof {
            assert(forall|m: int| 0 <= m < pair.len() ==> pair[m] == #[trigger] rest[m]);
        }
        if eq >= pe {
            proof {
                assert(forall|m: int| 0 <= m < pair.len() ==> (#[trigger] pair[m]) != '=');
                crate::worker::lemma_first_index_of(pair, '=', pair.len() as int);
            }
            return None;
        }
        proof {
            assert(forall|m: int| 0 <= m < eq - pos ==> (#[trigger] pair[m]) != '=');
            assert(pair[eq - pos] == '=');
            crate::worker::lemma_first_index_of(pair, '=', eq - pos);
        }
        let (a1, b1) = trim_bounds(&chars, pos, eq);
        let (a2, b2) = trim_bounds(&chars, eq + 1, pe);
        proof {
            assert(pair.take(eq - pos) =~= chars@.subrange(pos as int, eq as int));
            assert(pair.skip(eq - pos + 1) =~= chars@.subrange(eq + 1, pe as int));
        }
        let pname = copy_char_range(&chars, a1, b1);
        if chars_equal(&pname, &name) {
            let pval = copy_char_range(&chars, a2, b2);
            let vstr = chars_to_string(&pval);
            let bytes = percent_decode_bytes(vstr.as_str().as_bytes());
            return crate::strutil::string_from_utf8(bytes);
        }
        if pe == n {
            return None;
        }
        proof {
            assert(rest.skip(pe - pos + 1) =~= chars@.skip(pe + 1));
        }
        pos = pe + 1;
    }
}

/// Modeled after the control-flow outcome of a visitor callback.
#[derive(Clone, Copy, Debug, PartialEq, Eq, Structural)]
pub enum ControlFlow<B, C> {
    Continue(C),
    Break(B),
}

/// Access to an internal read buffer, avoiding data copies. The buffer
/// is empty exactly at the end of the underlying file.
pub trait BufferedRead {
    fn buffered_read(&mut self, offset: u64) -> Result<&[u8], ToolError>;
}

} // verus!
