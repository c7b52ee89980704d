//! String helpers: quoting, slicing by byte offsets, and joining path segments.

use vstd::prelude::*;
use vstd::string::StringSliceAdditionalSpecFns;
use vstd::utf8::{
    decode_utf8, encode_utf8, encode_utf8_decode_utf8, encode_utf8_valid_utf8, is_char_boundary,
    is_char_boundary_iff_not_is_continuation_byte, is_char_boundary_start_end_of_seq,
};

verus! {

/// The separator of path segments.
pub open spec fn slash() -> Seq<char> {
    seq!['/']
}

/// `s` begins with a single or double quote and ends with the same character.
pub open spec fn quoted(s: Seq<char>) -> bool {
    s.len() > 0 && (s[0] == '\'' || s[0] == '"') && s[0] == s.last()
}

/// The quote characters that count when none are named.
pub open spec fn default_quotes() -> Set<char> {
    set!['"', '\'']
}

/// The quote characters that count: those named, or the default ones.
pub open spec fn quote_chars(quote_set: Option<&Vec<char>>) -> Set<char> {
    match quote_set {
        Some(set) => set@.to_set(),
        None => default_quotes(),
    }
}

/// `s` has at least two characters, and its first and last are the same
/// character of `quotes`.
pub open spec fn is_wrapped(s: Seq<char>, quotes: Set<char>) -> bool {
    s.len() >= 2 && s[0] == s.last() && quotes.contains(s[0])
}

/// `s` with every backslash that stands before `quote` taken out, read from
/// the left.
pub open spec fn unescaped(s: Seq<char>, quote: char) -> Seq<char>
    decreases s.len(),
{
    if s.len() == 0 {
        s
    } else if s.len() >= 2 && s[0] == '\\' && s[1] == quote {
        seq![quote] + unescaped(s.skip(2), quote)
    } else {
        seq![s[0]] + unescaped(s.skip(1), quote)
    }
}

/// `s` without the quotes round it, if it is wrapped in quotes, and with
/// escaped quotes inside made plain on request.
pub open spec fn unquoted(s: Seq<char>, unescape: bool, quotes: Set<char>) -> Seq<char> {
    if is_wrapped(s, quotes) {
        let inner = s.subrange(1, s.len() - 1);
        if unescape {
            unescaped(inner, s[0])
        } else {
            inner
        }
    } else {
        s
    }
}

/// A string that begins and ends with the same quote character can only be
/// unquoted where that character takes a single byte.
pub open spec fn can_unquote(s: Seq<char>, quotes: Set<char>) -> bool {
    s.len() >= 1 && s[0] == s.last() && quotes.contains(s[0]) ==> (s[0] as u32) < 0x80
}

/// An offset as a 64-bit machine word holds it: a negative one wraps round.
pub open spec fn word(offset: int) -> int {
    if offset < 0 {
        offset + 0x1_0000_0000_0000_0000
    } else {
        offset
    }
}

/// Where a substring starts: a negative `start` counts from the end.
pub open spec fn start_offset(len: int, start: int) -> int {
    word(
        if start < 0 {
            len + start
        } else {
            start
        },
    )
}

/// Where a substring ends: an `end` of zero is the end of the string, a
/// negative one counts from there.
pub open spec fn end_offset(len: int, end: int) -> int {
    word(
        if end <= 0 {
            len + end
        } else {
            end
        },
    )
}

/// Either the offsets cross, or both lie in `bytes`, on character boundaries.
pub open spec fn can_slice(bytes: Seq<u8>, start: int, end: int) -> bool {
    let from = start_offset(bytes.len() as int, start);
    let to = end_offset(bytes.len() as int, end);
    from > to || (to <= bytes.len() && is_char_boundary(bytes, from) && is_char_boundary(bytes, to))
}

/// The bytes between the two offsets; none where the offsets cross.
pub open spec fn sliced(bytes: Seq<u8>, start: int, end: int) -> Seq<u8> {
    let from = start_offset(bytes.len() as int, start);
    let to = end_offset(bytes.len() as int, end);
    if from > to {
        Seq::empty()
    } else {
        bytes.subrange(from, to)
    }
}

/// The pieces of `s` between slashes, empty pieces left out.
///
/// Read from the left, a slash adds nothing; any other character goes on to
/// the last piece where it follows such a character, and begins a piece
/// where it does not.
pub open spec fn segments(s: Seq<char>) -> Seq<Seq<char>>
    decreases s.len(),
{
    if s.len() == 0 {
        Seq::empty()
    } else if s.last() == '/' {
        segments(s.drop_last())
    } else {
        let before = segments(s.drop_last());
        if s.len() >= 2 && s[s.len() - 2] != '/' && before.len() > 0 {
            before.drop_last().push(before.last().push(s.last()))
        } else {
            before.push(seq![s.last()])
        }
    }
}

/// The nodes of a path: the root, then its segments.
pub open spec fn url_nodes(s: Seq<char>) -> Seq<Seq<char>> {
    seq![slash()] + segments(s)
}

/// `s`, with `prefix` put before it unless it begins with it.
pub open spec fn with_prefix(s: Seq<char>, prefix: Seq<char>) -> Seq<char> {
    if prefix.is_prefix_of(s) {
        s
    } else {
        prefix + s
    }
}

/// `s`, with `suffix` put after it unless it ends with it.
pub open spec fn with_suffix(s: Seq<char>, suffix: Seq<char>) -> Seq<char> {
    if suffix.is_suffix_of(s) {
        s
    } else {
        s + suffix
    }
}

/// `s` without `prefix` at its beginning, if it begins with it.
pub open spec fn without_prefix(s: Seq<char>, prefix: Seq<char>) -> Seq<char> {
    if prefix.is_prefix_of(s) {
        s.skip(prefix.len() as int)
    } else {
        s
    }
}

/// `s` without `suffix` at its end, if it ends with it.
pub open spec fn without_suffix(s: Seq<char>, suffix: Seq<char>) -> Seq<char> {
    if suffix.is_suffix_of(s) {
        s.take(s.len() - suffix.len())
    } else {
        s
    }
}

/// `url` and `segment` with exactly one slash between them, where `url`
/// ends with at most one and `segment` begins with at most one.
pub open spec fn joined(url: Seq<char>, segment: Seq<char>) -> Seq<char> {
    with_suffix(url, slash()) + without_prefix(segment, slash())
}

/// `url` with each of `segments` joined on in turn.
pub open spec fn joined_all(url: Seq<char>, segments: Seq<Seq<char>>) -> Seq<char> {
    segments.fold_left(url, |acc: Seq<char>, segment: Seq<char>| joined(acc, segment))
}

/// Whether two strings hold the same characters.
pub fn str_eq(a: &str, b: &str) -> (r: bool)
    ensures
        r == (a@ == b@),
{
    let x = a.as_bytes();
    let y = b.as_bytes();
    proof {
        encode_utf8_decode_utf8(a@);
        encode_utf8_decode_utf8(b@);
    }
    if x.len() != y.len() {
        return false;
    }
    let mut i: usize = 0;
    while i < x.len()
        invariant
            i <= x.len(),
            x.len() == y.len(),
            x@ == a.spec_bytes(),
            y@ == b.spec_bytes(),
            forall|j: int| 0 <= j < i ==> x@[j] == y@[j],
        decreases x.len() - i,
    {
        if x[i] != y[i] {
            return false;
        }
        i += 1;
    }
    assert(x@ =~= y@);
    true
}

/// The characters of `s`.
pub fn chars_of(s: &str) -> (v: Vec<char>)
    ensures
        v@ == s@,
{
    let mut v: Vec<char> = Vec::new();
    for c in it: s.chars()
        invariant
            v@ == it.seq().take(it.index() as int),
    {
        v.push(c);
    }
    v
}

/// Whether `s` begins with `prefix`.
pub fn starts_with(s: &Vec<char>, prefix: &Vec<char>) -> (r: bool)
    ensures
        r == prefix@.is_prefix_of(s@),
{
    if prefix.len() > s.len() {
        return false;
    }
    let mut i: usize = 0;
    while i < prefix.len()
        invariant
            i <= prefix.len() <= s.len(),
            forall|j: int| 0 <= j < i ==> s@[j] == prefix@[j],
        decreases prefix.len() - i,
    {
        if s[i] != prefix[i] {
            assert(s@.subrange(0, prefix.len() as int)[i as int] != prefix@[i as int]);
            return false;
        }
        i += 1;
    }
    assert(prefix@ =~= s@.subrange(0, prefix.len() as int));
    true
}

/// Whether `s` ends with `suffix`.
pub fn ends_with(s: &Vec<char>, suffix: &Vec<char>) -> (r: bool)
    ensures
        r == suffix@.is_suffix_of(s@),
{
    if suffix.len() > s.len() {
        return false;
    }
    let shift = s.len() - suffix.len();
    let mut i: usize = 0;
    while i < suffix.len()
        invariant
            i <= suffix.len() <= s.len(),
            shift == s.len() - suffix.len(),
            forall|j: int| 0 <= j < i ==> s@[shift + j] == suffix@[j],
        decreases suffix.len() - i,
    {
        if s[shift + i] != suffix[i] {
            assert(s@.subrange(shift as int, s.len() as int)[i as int] != suffix@[i as int]);
            return false;
        }
        i += 1;
    }
    assert(suffix@ =~= s@.subrange(shift as int, s.len() as int));
    true
}

/// Whether `c` is one of `set`.
fn is_listed(set: &Vec<char>, c: char) -> (r: bool)
    ensures
        r == set@.to_set().contains(c),
{
    let mut i: usize = 0;
    while i < set.len()
        invariant
            i <= set.len(),
            forall|j: int| 0 <= j < i ==> set@[j] != c,
        decreases set.len() - i,
    {
        if set[i] == c {
            assert(set@.contains(c));
            return true;
        }
        i += 1;
    }
    assert(!set@.contains(c));
    false
}

/// Helpers on string slices.
pub trait StringUtil {
    /// The characters of the string.
    spec fn text(&self) -> Seq<char>;

    /// Whether the string begins with a single or double quote and ends
    /// with the same character.
    fn is_quoted(&self) -> (r: bool)
        ensures
            r == quoted(self.text()),
    ;

    /// The part of the string between two byte offsets. A negative `start`
    /// counts from the end; so does an `end` that is zero or negative.
    /// Where the offsets cross, the result is empty.
    fn substring(&self, start: i64, end: i64) -> (r: &str)
        requires
            can_slice(encode_utf8(self.text()), start as int, end as int),
        ensures
            r.spec_bytes() == sliced(encode_utf8(self.text()), start as int, end as int),
            r@ == decode_utf8(sliced(encode_utf8(self.text()), start as int, end as int)),
    ;

    /// The string without the quotes round it. Only a character of
    /// `quote_set` counts as a quote; without a set, the single and the
    /// double quote do. With `unescape`, each backslash before a quote
    /// inside is taken out.
    fn unquote(&self, unescape: bool, quote_set: Option<&Vec<char>>) -> (r: String)
        requires
            can_unquote(self.text(), quote_chars(quote_set)),
        ensures
            r@ == unquoted(self.text(), unescape, quote_chars(quote_set)),
    ;

    /// The nodes of a path: the root `/`, then the segments between slashes.
    fn url_to_nodes(&self) -> (r: Vec<&str>)
        ensures
            r.deep_view() == url_nodes(self.text()),
    ;

    /// The string, with `prefix` put before it unless it begins with it.
    fn ensure_prefix(&self, prefix: &str) -> (r: String)
        ensures
            r@ == with_prefix(self.text(), prefix@),
    ;

    /// The string, with `suffix` put after it unless it ends with it.
    fn ensure_suffix(&self, suffix: &str) -> (r: String)
        ensures
            r@ == with_suffix(self.text(), suffix@),
    ;

    /// The string without `prefix` at its beginning, if it begins with it.
    fn drop_prefix(&self, prefix: &str) -> (r: String)
        ensures
            r@ == without_prefix(self.text(), prefix@),
    ;

    /// The string without `suffix` at its end, if it ends with it.
    fn drop_suffix(&self, suffix: &str) -> (r: String)
        ensures
            r@ == without_suffix(self.text(), suffix@),
    ;

    /// The string and `segment` with one slash between them.
    fn join_path_segment(&self, segment: &str) -> (r: String)
        ensures
            r@ == joined(self.text(), segment@),
    ;

    /// The string with each of `segments` joined on in turn.
    fn join_path_segments(&self, segments: Vec<&str>) -> (r: String)
        ensures
            r@ == joined_all(self.text(), segments.deep_view()),
    ;
}

impl StringUtil for str {
    open spec fn text(&self) -> Seq<char> {
        self@
    }

    fn is_quoted(&self) -> (r: bool) {
        let chars = chars_of(self);
        let n = chars.len();
        n > 0 && (chars[0] == '\'' || chars[0] == '"') && chars[0] == chars[n - 1]
    }

    fn unquote(&self, unescape: bool, quote_set: Option<&Vec<char>>) -> (r: String) {
        let chars = chars_of(self);
        let n = chars.len();
        if n < 2 {
            return self.to_owned();
        }
        let start = chars[0];
        let end = chars[n - 1];
        if start != end {
            return self.to_owned();
        }
        let listed = match quote_set {
            Some(set) => is_listed(set, start),
            None => start == '"' || start == '\'',
        };
        if !listed {
            return self.to_owned();
        }
        if !unescape {
            return self.substring_char(1, n - 1).to_owned();
        }
        let ghost s = self@;
        let ghost inner = s.subrange(1, n - 1);
        let mut result = String::new();
        let mut kept: usize = 1;
        let mut i: usize = 1;
        proof {
            assert(s.subrange(1, 1) =~= Seq::<char>::empty());
            assert(result@ + s.subrange(1, 1) + unescaped(inner, start) =~= unescaped(inner, start));
        }
        while i < n - 1
            invariant
                s == self@,
                chars@ == s,
                n == s.len(),
                n >= 2,
                inner == s.subrange(1, n - 1),
                1 <= kept <= i <= n - 1,
                result@ + s.subrange(kept as int, i as int) + unescaped(
                    s.subrange(i as int, n - 1),
                    start,
                ) == unescaped(inner, start),
            decreases n - 1 - i,
        {
            let ghost rest = s.subrange(i as int, n - 1);
            if chars[i] == '\\' && i + 1 < n - 1 && chars[i + 1] == start {
                let ghost before = result@;
                result.append(self.substring_char(kept, i));
                proof {
                    assert(rest.skip(2) =~= s.subrange(i + 2, n - 1));
                    assert(s.subrange(i + 1, i + 2) =~= seq![start]);
                    assert(result@ + s.subrange(i + 1, i + 2) + unescaped(
                        s.subrange(i + 2, n - 1),
                        start,
                    ) =~= before + s.subrange(kept as int, i as int) + unescaped(rest, start));
                }
                kept = i + 1;
                i = i + 2;
            } else {
                proof {
                    assert(rest.skip(1) =~= s.subrange(i + 1, n - 1));
                    assert(s.subrange(kept as int, i + 1) =~= s.subrange(kept as int, i as int)
                        + seq![s[i as int]]);
                    assert(result@ + s.subrange(kept as int, i + 1) + unescaped(
                        s.subrange(i + 1, n - 1),
                        start,
                    ) =~= result@ + s.subrange(kept as int, i as int) + unescaped(rest, start));
                }
                i = i + 1;
            }
        }
        proof {
            assert(unescaped(s.subrange(i as int, n - 1), start) =~= Seq::<char>::empty());
            assert(result@ + s.subrange(kept as int, i as int) =~= unescaped(inner, start));
        }
        result.append(self.substring_char(kept, n - 1));
        result
    }

    fn substring(&self, start: i64, end: i64) -> (r: &str) {
        let ghost bytes = self.spec_bytes();
        proof {
            encode_utf8_valid_utf8(self@);
        }
        let len: i128 = self.as_bytes().len() as i128;
        let from: i128 = if start < 0 {
            len + start as i128
        } else {
            start as i128
        };
        let from: i128 = if from < 0 {
            from + 0x1_0000_0000_0000_0000i128
        } else {
            from
        };
        let to: i128 = if end <= 0 {
            len + end as i128
        } else {
            end as i128
        };
        let to: i128 = if to < 0 {
            to + 0x1_0000_0000_0000_0000i128
        } else {
            to
        };
        assert(from == start_offset(bytes.len() as int, start as int));
        assert(to == end_offset(bytes.len() as int, end as int));
        if from > to {
            proof {
                reveal_strlit("");
                assert(""@ =~= Seq::<char>::empty());
                assert(decode_utf8(Seq::<u8>::empty()) =~= Seq::<char>::empty());
            }
            ""
        } else {
            let (head, _) = self.split_at(to as usize);
            proof {
                encode_utf8_valid_utf8(head@);
                if from < to {
                    is_char_boundary_iff_not_is_continuation_byte(bytes, from as int);
                    is_char_boundary_iff_not_is_continuation_byte(head.spec_bytes(), from as int);
                } else {
                    is_char_boundary_start_end_of_seq(head.spec_bytes());
                }
            }
            let (_, r) = head.split_at(from as usize);
            proof {
                assert(r.spec_bytes() =~= bytes.subrange(from as int, to as int));
                encode_utf8_decode_utf8(r@);
            }
            r
        }
    }

    fn url_to_nodes(&self) -> (r: Vec<&str>) {
        let chars = chars_of(self);
        let n = chars.len();
        let ghost s = self@;
        let mut nodes: Vec<&str> = Vec::new();
        nodes.push("/");
        proof {
            reveal_strlit("/");
            assert("/"@ =~= slash());
            assert(s.take(0) =~= Seq::<char>::empty());
            assert(nodes.deep_view() =~= url_nodes(s.take(0)));
        }
        let mut start: usize = 0;
        let mut i: usize = 0;
        while i < n
            invariant
                s == self@,
                chars@ == s,
                n == s.len(),
                start <= i <= n,
                start == 0 || s[start - 1] == '/',
                forall|k: int| start <= k < i ==> s[k] != '/',
                nodes.deep_view() == url_nodes(s.take(start as int)),
                start < i ==> segments(s.take(i as int)) == segments(s.take(start as int)).push(
                    s.subrange(start as int, i as int),
                ),
            decreases n - i,
        {
            let ghost before = nodes.deep_view();
            proof {
                assert(s.take(i + 1).drop_last() =~= s.take(i as int));
                assert(s.take(i + 1).last() == s[i as int]);
                if start == i {
                    assert(s.take(i as int) =~= s.take(start as int));
                }
            }
            if chars[i] == '/' {
                if start < i {
                    nodes.push(self.substring_char(start, i));
                    assert(nodes.deep_view() =~= before.push(s.subrange(start as int, i as int)));
                }
                assert(nodes.deep_view() =~= url_nodes(s.take(i + 1)));
                start = i + 1;
            } else {
                proof {
                    let grown = s.take(i + 1);
                    let old_segments = segments(s.take(i as int));
                    if start < i {
                        assert(grown[grown.len() - 2] == s[i - 1]);
                        assert(old_segments.drop_last() =~= segments(s.take(start as int)));
                        assert(old_segments.last().push(s[i as int]) =~= s.subrange(
                            start as int,
                            i + 1,
                        ));
                    } else {
                        if i > 0 {
                            assert(grown[grown.len() - 2] == s[i - 1]);
                        }
                        assert(seq![s[i as int]] =~= s.subrange(start as int, i + 1));
                    }
                }
            }
            i += 1;
        }
        if start < n {
            let ghost before = nodes.deep_view();
            nodes.push(self.substring_char(start, n));
            assert(nodes.deep_view() =~= before.push(s.subrange(start as int, n as int)));
        }
        proof {
            assert(s.take(n as int) =~= s);
            assert(nodes.deep_view() =~= url_nodes(s));
        }
        nodes
    }

    fn ensure_prefix(&self, prefix: &str) -> (r: String) {
        if starts_with(&chars_of(self), &chars_of(prefix)) {
            self.to_owned()
        } else {
            let mut result = prefix.to_owned();
            result.append(self);
            result
        }
    }

    fn ensure_suffix(&self, suffix: &str) -> (r: String) {
        let mut result = self.to_owned();
        if !ends_with(&chars_of(self), &chars_of(suffix)) {
            result.append(suffix);
        }
        result
    }

    fn drop_prefix(&self, prefix: &str) -> (r: String) {
        let chars = chars_of(self);
        let head = chars_of(prefix);
        if starts_with(&chars, &head) {
            self.substring_char(head.len(), chars.len()).to_owned()
        } else {
            self.to_owned()
        }
    }

    fn drop_suffix(&self, suffix: &str) -> (r: String) {
        let chars = chars_of(self);
        let tail = chars_of(suffix);
        if ends_with(&chars, &tail) {
            self.substring_char(0, chars.len() - tail.len()).to_owned()
        } else {
            self.to_owned()
        }
    }

    fn join_path_segment(&self, segment: &str) -> (r: String) {
        proof {
            reveal_strlit("/");
            assert("/"@ =~= slash());
        }
        let mut url = self.ensure_suffix("/");
        let rest = segment.drop_prefix("/");
        url.append(rest.as_str());
        url
    }

    fn join_path_segments(&self, segments: Vec<&str>) -> (r: String) {
        let ghost all = segments.deep_view();
        let ghost step = |acc: Seq<char>, segment: Seq<char>| joined(acc, segment);
        let mut url = self.to_owned();
        let mut i: usize = 0;
        proof {
            assert(all.take(0) =~= Seq::<Seq<char>>::empty());
        }
        while i < segments.len()
            invariant
                all == segments.deep_view(),
                step == |acc: Seq<char>, segment: Seq<char>| joined(acc, segment),
                i <= segments.len(),
                url@ == all.take(i as int).fold_left(self@, step),
            decreases segments.len() - i,
        {
            proof {
                assert(all.take(i + 1).drop_last() =~= all.take(i as int));
                assert(all.take(i + 1).last() == segments[i as int]@);
            }
            url = url.as_str().join_path_segment(segments[i]);
            i += 1;
        }
        proof {
            assert(all.take(segments.len() as int) =~= all);
        }
        url
    }
}

} // verus!
