//! Text checks shared by kind parsing and validation.
use vstd::prelude::*;
use vstd::string::StrSliceExecFns;

verus! {

/// The Unicode `White_Space` property, which `char::is_whitespace` and
/// `str::trim` use.
pub open spec fn is_white_space(c: char) -> bool {
    let v = c as u32;
    ||| 0x9 <= v <= 0xd
    ||| v == 0x20
    ||| v == 0x85
    ||| v == 0xa0
    ||| v == 0x1680
    ||| 0x2000 <= v <= 0x200a
    ||| v == 0x2028
    ||| v == 0x2029
    ||| v == 0x202f
    ||| v == 0x205f
    ||| v == 0x3000
}

/// Non-empty, with no leading or trailing white space: `trim` leaves it as it is.
pub open spec fn is_trimmed(s: Seq<char>) -> bool {
    &&& s.len() > 0
    &&& !is_white_space(s[0])
    &&& !is_white_space(s[s.len() - 1])
}

pub fn white_space(c: char) -> (r: bool)
    ensures
        r == is_white_space(c),
{
    let v = c as u32;
    (0x9 <= v && v <= 0xd) || v == 0x20 || v == 0x85 || v == 0xa0 || v == 0x1680 || (0x2000 <= v && v <= 0x200a)
        || v == 0x2028 || v == 0x2029 || v == 0x202f || v == 0x205f || v == 0x3000
}

/// Whether `value` is non-empty and equal to its own `trim()`.
pub fn trimmed(value: &str) -> (r: bool)
    ensures
        r == is_trimmed(value@),
{
    let len = value.unicode_len();
    if len == 0 {
        return false;
    }
    let first = value.get_char(0);
    let last = value.get_char(len - 1);
    !white_space(first) && !white_space(last)
}

/// Whether two texts are equal.
pub fn text_is(value: &str, literal: &str) -> (r: bool)
    ensures
        r == (value@ == literal@),
{
    value.to_owned() == literal.to_owned()
}

/// `s` without its leading white space.
pub open spec fn trim_start(s: Seq<char>) -> Seq<char>
    decreases s.len(),
{
    if s.len() > 0 && is_white_space(s[0]) {
        trim_start(s.drop_first())
    } else {
        s
    }
}

/// `s` without its trailing white space.
pub open spec fn trim_end(s: Seq<char>) -> Seq<char>
    decreases s.len(),
{
    if s.len() > 0 && is_white_space(s.last()) {
        trim_end(s.drop_last())
    } else {
        s
    }
}

/// `s` without surrounding white space, as `str::trim` gives it.
pub open spec fn trim_text(s: Seq<char>) -> Seq<char> {
    trim_end(trim_start(s))
}

/// The ASCII lower-case form of a character.
pub open spec fn lower_char(c: char) -> char {
    if 'A' <= c && c <= 'Z' {
        ((c as u32) + 32) as char
    } else {
        c
    }
}

/// The ASCII lower-case form of a text, as `str::to_ascii_lowercase` gives it.
pub open spec fn lower_ascii(s: Seq<char>) -> Seq<char> {
    s.map_values(|c: char| lower_char(c))
}

proof fn lemma_trim_start_skip(s: Seq<char>, i: int)
    requires
        0 <= i <= s.len(),
        forall|j: int| 0 <= j < i ==> is_white_space(#[trigger] s[j]),
    ensures
        trim_start(s) == trim_start(s.subrange(i, s.len() as int)),
    decreases i,
{
    if i > 0 {
        assert(is_white_space(s[0]));
        let t = s.drop_first();
        assert forall|j: int| 0 <= j < i - 1 implies is_white_space(#[trigger] t[j]) by {
            assert(t[j] == s[j + 1]);
        }
        lemma_trim_start_skip(t, i - 1);
        assert(t.subrange(i - 1, t.len() as int) =~= s.subrange(i, s.len() as int));
    } else {
        assert(s.subrange(0, s.len() as int) =~= s);
    }
}

proof fn lemma_trim_end_skip(s: Seq<char>, k: int)
    requires
        0 <= k <= s.len(),
        forall|j: int| k <= j < s.len() ==> is_white_space(#[trigger] s[j]),
    ensures
        trim_end(s) == trim_end(s.subrange(0, k)),
    decreases s.len() - k,
{
    if k < s.len() {
        assert(is_white_space(s.last()));
        let t = s.drop_last();
        assert forall|j: int| k <= j < t.len() implies is_white_space(#[trigger] t[j]) by {
            assert(t[j] == s[j]);
        }
        lemma_trim_end_skip(t, k);
        assert(t.subrange(0, k) =~= s.subrange(0, k));
    } else {
        assert(s.subrange(0, k) =~= s);
    }
}

/// The bounds of `value` without surrounding white space: `trim_text` is
/// the characters from the first bound up to the second.
pub fn trim_bounds(value: &str) -> (r: (usize, usize))
    ensures
        r.0 <= r.1 <= value@.len(),
        trim_text(value@) == value@.subrange(r.0 as int, r.1 as int),
{
    let len = value.unicode_len();
    let mut start: usize = 0;
    while start < len && white_space(value.get_char(start))
        invariant
            start <= len,
            len == value@.len(),
            forall|j: int| 0 <= j < start ==> is_white_space(#[trigger] value@[j]),
        decreases len - start,
    {
        start = start + 1;
    }
    let mut end: usize = len;
    while end > start && white_space(value.get_char(end - 1))
        invariant
            start <= end <= len,
            len == value@.len(),
            forall|j: int| end <= j < len ==> is_white_space(#[trigger] value@[j]),
        decreases end,
    {
        end = end - 1;
    }
    proof {
        lemma_trim_start_skip(value@, start as int);
        let rest = value@.subrange(start as int, len as int);
        if start < len {
            assert(!is_white_space(value@[start as int]));
            assert(rest[0] == value@[start as int]);
            assert(trim_start(rest) == rest);
        } else {
            assert(rest.len() == 0);
        }
        assert forall|j: int| end - start <= j < rest.len() implies is_white_space(#[trigger] rest[j]) by {
            assert(rest[j] == value@[j + start]);
        }
        lemma_trim_end_skip(rest, end - start);
        let core = rest.subrange(0, end - start);
        assert(core =~= value@.subrange(start as int, end as int));
        if end > start {
            assert(!is_white_space(value@[end - 1]));
            assert(core.last() == value@[end - 1]);
        }
        assert(trim_end(core) == core);
    }
    (start, end)
}

/// Whether the characters of `value` between the bounds, in ASCII lower
/// case, spell `word`.
pub fn lower_matches(value: &str, from: usize, to: usize, word: &str) -> (r: bool)
    requires
        from <= to <= value@.len(),
    ensures
        r == (lower_ascii(value@.subrange(from as int, to as int)) == word@),
{
    let ghost part = value@.subrange(from as int, to as int);
    let n = word.unicode_len();
    if to - from != n {
        proof {
            assert(lower_ascii(part).len() == part.len());
        }
        return false;
    }
    let mut i: usize = 0;
    while i < n
        invariant
            n == word@.len(),
            to - from == n,
            from <= to <= value@.len(),
            part == value@.subrange(from as int, to as int),
            i <= n,
            forall|j: int| 0 <= j < i ==> lower_char(part[j]) == #[trigger] word@[j],
        decreases n - i,
    {
        let c = value.get_char(from + i);
        let d = word.get_char(i);
        let lowered = if 'A' <= c && c <= 'Z' { (c as u32) + 32 == d as u32 } else { c == d };
        proof {
            assert(part[i as int] == c);
            if 'A' <= c && c <= 'Z' {
                assert(lower_char(c) == ((c as u32) + 32) as char);
            }
        }
        if !lowered {
            proof {
                assert(lower_ascii(part)[i as int] == lower_char(part[i as int]));
                assert(lower_char(c) != d);
            }
            return false;
        }
        i = i + 1;
    }
    proof {
        assert(lower_ascii(part) =~= word@);
    }
    true
}

/// The part of `s` after its last `/` or `#`: all of `s` when it has none.
pub open spec fn after_last_separator(s: Seq<char>) -> Seq<char>
    decreases s.len(),
{
    if s.len() == 0 {
        s
    } else if s.last() == '/' || s.last() == '#' {
        Seq::empty()
    } else {
        after_last_separator(s.drop_last()).push(s.last())
    }
}

/// The part of `s` before its first `#`: all of `s` when it has none.
pub open spec fn before_first_hash(s: Seq<char>) -> Seq<char>
    decreases s.len(),
{
    if s.len() == 0 {
        s
    } else if s[0] == '#' {
        Seq::empty()
    } else {
        seq![s[0]] + before_first_hash(s.drop_first())
    }
}

proof fn lemma_after_last(s: Seq<char>, k: int)
    requires
        0 <= k <= s.len(),
        k == 0 || s[k - 1] == '/' || s[k - 1] == '#',
        forall|j: int| k <= j < s.len() ==> #[trigger] s[j] != '/' && s[j] != '#',
    ensures
        after_last_separator(s) == s.subrange(k, s.len() as int),
    decreases s.len(),
{
    if s.len() > k {
        let t = s.drop_last();
        assert forall|j: int| k <= j < t.len() implies #[trigger] t[j] != '/' && t[j] != '#' by {
            assert(t[j] == s[j]);
        }
        if k > 0 {
            assert(t[k - 1] == s[k - 1]);
        }
        lemma_after_last(t, k);
        assert(t.subrange(k, t.len() as int).push(s.last()) =~= s.subrange(k, s.len() as int));
    } else if k > 0 {
        assert(s.last() == s[k - 1]);
    }
}

proof fn lemma_before_hash(s: Seq<char>, k: int)
    requires
        0 <= k <= s.len(),
        k == s.len() || s[k] == '#',
        forall|j: int| 0 <= j < k ==> #[trigger] s[j] != '#',
    ensures
        before_first_hash(s) == s.subrange(0, k),
    decreases k,
{
    if k > 0 {
        let t = s.drop_first();
        assert forall|j: int| 0 <= j < k - 1 implies #[trigger] t[j] != '#' by {
            assert(t[j] == s[j + 1]);
        }
        if k < s.len() {
            assert(t[k - 1] == s[k]);
        }
        lemma_before_hash(t, k - 1);
        assert(seq![s[0]] + t.subrange(0, k - 1) =~= s.subrange(0, k));
    } else if s.len() > 0 {
        assert(s.subrange(0, 0) =~= Seq::<char>::empty());
    } else {
        assert(s.subrange(0, 0) =~= s);
    }
}

/// The part of `value` after its last `/` or `#`.
pub fn last_segment(value: &str) -> (r: String)
    ensures
        r@ == after_last_separator(value@),
{
    let len = value.unicode_len();
    let mut k: usize = len;
    while k > 0 && value.get_char(k - 1) != '/' && value.get_char(k - 1) != '#'
        invariant
            k <= len,
            len == value@.len(),
            forall|j: int| k <= j < len ==> #[trigger] value@[j] != '/' && value@[j] != '#',
        decreases k,
    {
        k = k - 1;
    }
    proof {
        lemma_after_last(value@, k as int);
    }
    value.substring_char(k, len).to_owned()
}

/// The part of `value` before its first `#`.
pub fn before_hash(value: &str) -> (r: String)
    ensures
        r@ == before_first_hash(value@),
{
    let len = value.unicode_len();
    let mut k: usize = 0;
    while k < len && value.get_char(k) != '#'
        invariant
            k <= len,
            len == value@.len(),
            forall|j: int| 0 <= j < k ==> #[trigger] value@[j] != '#',
        decreases len - k,
    {
        k = k + 1;
    }
    proof {
        lemma_before_hash(value@, k as int);
    }
    value.substring_char(0, k).to_owned()
}

/// Whether `value` holds a `#`.
pub fn has_hash(value: &str) -> (r: bool)
    ensures
        r == value@.contains('#'),
{
    let len = value.unicode_len();
    let mut k: usize = 0;
    while k < len
        invariant
            k <= len,
            len == value@.len(),
            forall|j: int| 0 <= j < k ==> #[trigger] value@[j] != '#',
        decreases len - k,
    {
        if value.get_char(k) == '#' {
            return true;
        }
        k = k + 1;
    }
    false
}

} // verus!
