//! Where tokens begin and end: the searches that the reader is built from,
//! each with the statement of what it finds.

use vstd::prelude::*;
use crate::utils::{APOS, GT, is_space, is_space_spec, LBRACKET, QUOT, RBRACKET};

verus! {

/// The first position at or after `from` that holds `b`, or the length of
/// the text where there is none.
pub open spec fn find_byte(s: Seq<u8>, from: int, b: u8) -> int
    decreases s.len() - from,
{
    if from >= s.len() {
        s.len() as int
    } else if s[from] == b {
        from
    } else {
        find_byte(s, from + 1, b)
    }
}

/// The first position at or after `from` that holds no whitespace, or the
/// length of the text where there is none.
pub open spec fn skip_spaces(s: Seq<u8>, from: int) -> int
    decreases s.len() - from,
{
    if from >= s.len() {
        s.len() as int
    } else if !is_space_spec(s[from]) {
        from
    } else {
        skip_spaces(s, from + 1)
    }
}

/// The first position at or after `from` that holds whitespace, or the
/// length of the text where there is none.
pub open spec fn find_space(s: Seq<u8>, from: int) -> int
    decreases s.len() - from,
{
    if from >= s.len() {
        s.len() as int
    } else if is_space_spec(s[from]) {
        from
    } else {
        find_space(s, from + 1)
    }
}

/// The length of a text without the whitespace at its end.
pub open spec fn trimmed_len(s: Seq<u8>) -> int
    decreases s.len(),
{
    if s.len() == 0 {
        0
    } else if !is_space_spec(s.last()) {
        s.len() as int
    } else {
        trimmed_len(s.drop_last())
    }
}

/// Whether `pat` stands in `s` at position `at`.
pub open spec fn matches_at(s: Seq<u8>, at: int, pat: Seq<u8>) -> bool {
    0 <= at && at + pat.len() <= s.len() && s.subrange(at, at + pat.len()) == pat
}

/// The first position at or after `from` at which `pat` stands, or the
/// length of the text where it stands nowhere.
pub open spec fn find_pattern(s: Seq<u8>, from: int, pat: Seq<u8>) -> int
    decreases s.len() - from,
{
    if from >= s.len() || from + pat.len() > s.len() {
        s.len() as int
    } else if matches_at(s, from, pat) {
        from
    } else {
        find_pattern(s, from + 1, pat)
    }
}

/// The position of the `>` that closes a tag: the first `>` at or after
/// `from` that stands in no quoted value, or the length of the text where
/// there is none. `quote` is the quote that is open at `from`, if any.
pub open spec fn tag_end(s: Seq<u8>, from: int, quote: Option<u8>) -> int
    decreases s.len() - from,
{
    if from >= s.len() {
        s.len() as int
    } else {
        match quote {
            None => if s[from] == GT {
                from
            } else if s[from] == QUOT || s[from] == APOS {
                tag_end(s, from + 1, Some(s[from]))
            } else {
                tag_end(s, from + 1, None)
            },
            Some(q) => if s[from] == q {
                tag_end(s, from + 1, None)
            } else {
                tag_end(s, from + 1, quote)
            },
        }
    }
}

/// The position of the `>` that closes a document type: the first `>` at or
/// after `from` that stands outside every `[...]`, or the length of the text
/// where there is none. `depth` is the number of brackets open at `from`.
pub open spec fn doctype_end(s: Seq<u8>, from: int, depth: nat) -> int
    decreases s.len() - from,
{
    if from >= s.len() {
        s.len() as int
    } else if s[from] == GT && depth == 0 {
        from
    } else if s[from] == LBRACKET {
        doctype_end(s, from + 1, depth + 1)
    } else if s[from] == RBRACKET && depth > 0 {
        doctype_end(s, from + 1, (depth - 1) as nat)
    } else {
        doctype_end(s, from + 1, depth)
    }
}

/// A search for a byte ends between its start and the end of the text.
pub proof fn lemma_find_byte_bounds(s: Seq<u8>, from: int, b: u8)
    requires
        0 <= from <= s.len(),
    ensures
        from <= find_byte(s, from, b) <= s.len(),
        find_byte(s, from, b) < s.len() ==> s[find_byte(s, from, b)] == b,
        forall|j: int| from <= j < find_byte(s, from, b) ==> s[j] != b,
    decreases s.len() - from,
{
    if from < s.len() && s[from] != b {
        lemma_find_byte_bounds(s, from + 1, b);
    }
}

/// A search for a pattern ends between its start and the end of the text,
/// and where it ends before the end, the pattern stands there.
pub proof fn lemma_find_pattern_bounds(s: Seq<u8>, from: int, pat: Seq<u8>)
    requires
        0 <= from <= s.len(),
    ensures
        from <= find_pattern(s, from, pat) <= s.len(),
        find_pattern(s, from, pat) < s.len() ==> matches_at(s, find_pattern(s, from, pat), pat),
        forall|j: int| from <= j < find_pattern(s, from, pat) ==> !matches_at(s, j, pat),
    decreases s.len() - from,
{
    if from < s.len() && from + pat.len() <= s.len() && !matches_at(s, from, pat) {
        lemma_find_pattern_bounds(s, from + 1, pat);
    }
}

/// Skipping whitespace ends between its start and the end of the text, and
/// everything skipped is whitespace.
pub proof fn lemma_skip_spaces_bounds(s: Seq<u8>, from: int)
    requires
        0 <= from <= s.len(),
    ensures
        from <= skip_spaces(s, from) <= s.len(),
        skip_spaces(s, from) < s.len() ==> !is_space_spec(s[skip_spaces(s, from)]),
        forall|j: int| from <= j < skip_spaces(s, from) ==> is_space_spec(s[j]),
    decreases s.len() - from,
{
    if from < s.len() && is_space_spec(s[from]) {
        lemma_skip_spaces_bounds(s, from + 1);
    }
}

/// A search for whitespace ends between its start and the end of the text,
/// and nothing before its end is whitespace.
pub proof fn lemma_find_space_bounds(s: Seq<u8>, from: int)
    requires
        0 <= from <= s.len(),
    ensures
        from <= find_space(s, from) <= s.len(),
        find_space(s, from) < s.len() ==> is_space_spec(s[find_space(s, from)]),
        forall|j: int| from <= j < find_space(s, from) ==> !is_space_spec(s[j]),
    decreases s.len() - from,
{
    if from < s.len() && !is_space_spec(s[from]) {
        lemma_find_space_bounds(s, from + 1);
    }
}

/// The `>` that closes a tag lies between the start of the search and the
/// end of the text.
pub proof fn lemma_tag_end_bounds(s: Seq<u8>, from: int, quote: Option<u8>)
    requires
        0 <= from <= s.len(),
    ensures
        from <= tag_end(s, from, quote) <= s.len(),
        tag_end(s, from, quote) < s.len() ==> s[tag_end(s, from, quote)] == GT,
    decreases s.len() - from,
{
    if from < s.len() {
        match quote {
            None => {
                if s[from] == GT {
                } else if s[from] == QUOT || s[from] == APOS {
                    lemma_tag_end_bounds(s, from + 1, Some(s[from]));
                } else {
                    lemma_tag_end_bounds(s, from + 1, None);
                }
            },
            Some(q) => {
                if s[from] == q {
                    lemma_tag_end_bounds(s, from + 1, None);
                } else {
                    lemma_tag_end_bounds(s, from + 1, quote);
                }
            },
        }
    }
}

/// The `>` that closes a document type lies between the start of the
/// search and the end of the text.
pub proof fn lemma_doctype_end_bounds(s: Seq<u8>, from: int, depth: nat)
    requires
        0 <= from <= s.len(),
    ensures
        from <= doctype_end(s, from, depth) <= s.len(),
        doctype_end(s, from, depth) < s.len() ==> s[doctype_end(s, from, depth)] == GT,
    decreases s.len() - from,
{
    if from < s.len() {
        if s[from] == GT && depth == 0 {
        } else if s[from] == LBRACKET {
            lemma_doctype_end_bounds(s, from + 1, depth + 1);
        } else if s[from] == RBRACKET && depth > 0 {
            lemma_doctype_end_bounds(s, from + 1, (depth - 1) as nat);
        } else {
            lemma_doctype_end_bounds(s, from + 1, depth);
        }
    }
}

/// The trimmed length is at most the length, what follows it is whitespace
/// and what stands just before it is not.
pub proof fn lemma_trimmed_len_bounds(s: Seq<u8>)
    ensures
        0 <= trimmed_len(s) <= s.len(),
        trimmed_len(s) > 0 ==> !is_space_spec(s[trimmed_len(s) - 1]),
        forall|j: int| trimmed_len(s) <= j < s.len() ==> is_space_spec(s[j]),
    decreases s.len(),
{
    if s.len() > 0 && is_space_spec(s.last()) {
        lemma_trimmed_len_bounds(s.drop_last());
        assert forall|j: int| trimmed_len(s) <= j < s.len() implies is_space_spec(s[j]) by {
            if j < s.len() - 1 {
                assert(s.drop_last()[j] == s[j]);
            }
        }
    }
}

/// Finds the first `b` at or after `from`.
pub fn scan_byte(s: &[u8], from: usize, b: u8) -> (k: usize)
    requires
        from <= s@.len(),
    ensures
        k == find_byte(s@, from as int, b),
        from <= k <= s@.len(),
{
    let mut i: usize = from;
    while i < s.len()
        invariant
            from <= i <= s@.len(),
            find_byte(s@, from as int, b) == find_byte(s@, i as int, b),
        decreases s@.len() - i,
    {
        if s[i] == b {
            return i;
        }
        i += 1;
    }
    i
}

/// Finds the first byte at or after `from` that is no whitespace.
pub fn scan_spaces(s: &[u8], from: usize) -> (k: usize)
    requires
        from <= s@.len(),
    ensures
        k == skip_spaces(s@, from as int),
        from <= k <= s@.len(),
{
    let mut i: usize = from;
    while i < s.len()
        invariant
            from <= i <= s@.len(),
            skip_spaces(s@, from as int) == skip_spaces(s@, i as int),
        decreases s@.len() - i,
    {
        if !is_space(s[i]) {
            return i;
        }
        i += 1;
    }
    i
}

/// Finds the first whitespace at or after `from`.
pub fn scan_to_space(s: &[u8], from: usize) -> (k: usize)
    requires
        from <= s@.len(),
    ensures
        k == find_space(s@, from as int),
        from <= k <= s@.len(),
{
    let mut i: usize = from;
    while i < s.len()
        invariant
            from <= i <= s@.len(),
            find_space(s@, from as int) == find_space(s@, i as int),
        decreases s@.len() - i,
    {
        if is_space(s[i]) {
            return i;
        }
        i += 1;
    }
    i
}

/// Measures a text without the whitespace at its end.
pub fn trim_end(s: &[u8]) -> (k: usize)
    ensures
        k == trimmed_len(s@),
        k <= s@.len(),
{
    let mut k: usize = s.len();
    assert(s@.take(k as int) =~= s@);
    while k > 0
        invariant
            k <= s@.len(),
            trimmed_len(s@) == trimmed_len(s@.take(k as int)),
        decreases k,
    {
        if !is_space(s[k - 1]) {
            return k;
        }
        assert(s@.take(k as int).drop_last() =~= s@.take(k - 1));
        k -= 1;
    }
    k
}

/// Tests whether `pat` stands in `s` at position `at`.
pub fn has_at(s: &[u8], at: usize, pat: &[u8]) -> (r: bool)
    requires
        at <= s@.len(),
    ensures
        r == matches_at(s@, at as int, pat@),
{
    if pat.len() > s.len() - at {
        return false;
    }
    let mut i: usize = 0;
    while i < pat.len()
        invariant
            i <= pat@.len(),
            at + pat@.len() <= s@.len() <= usize::MAX,
            forall|j: int| 0 <= j < i ==> s@[at + j] == pat@[j],
        decreases pat@.len() - i,
    {
        if s[at + i] != pat[i] {
            assert(s@.subrange(at as int, at + pat@.len())[i as int] != pat@[i as int]);
            return false;
        }
        i += 1;
    }
    assert(s@.subrange(at as int, at + pat@.len()) =~= pat@);
    true
}

/// Finds the first position at or after `from` at which `pat` stands.
pub fn scan_pattern(s: &[u8], from: usize, pat: &[u8]) -> (k: usize)
    requires
        from <= s@.len(),
    ensures
        k == find_pattern(s@, from as int, pat@),
        from <= k <= s@.len(),
        k < s@.len() ==> k + pat@.len() <= s@.len(),
{
    let mut i: usize = from;
    while i < s.len() && pat.len() <= s.len() - i
        invariant
            from <= i <= s@.len(),
            find_pattern(s@, from as int, pat@) == find_pattern(s@, i as int, pat@),
        decreases s@.len() - i,
    {
        if has_at(s, i, pat) {
            return i;
        }
        i += 1;
    }
    assert(find_pattern(s@, i as int, pat@) == s@.len());
    s.len()
}

/// Finds the `>` that closes a tag whose content starts at `from`.
pub fn scan_tag_end(s: &[u8], from: usize) -> (k: usize)
    requires
        from <= s@.len(),
    ensures
        k == tag_end(s@, from as int, None),
        from <= k <= s@.len(),
        k < s@.len() ==> s@[k as int] == GT,
{
    let mut i: usize = from;
    let mut quote: Option<u8> = None;
    while i < s.len()
        invariant
            from <= i <= s@.len(),
            tag_end(s@, from as int, None) == tag_end(s@, i as int, quote),
        decreases s@.len() - i,
    {
        let b = s[i];
        match quote {
            None => {
                if b == GT {
                    return i;
                } else if b == QUOT || b == APOS {
                    quote = Some(b);
                }
            },
            Some(q) => {
                if b == q {
                    quote = None;
                }
            },
        }
        i += 1;
    }
    i
}

/// Finds the `>` that closes a document type whose content starts at
/// `from`.
pub fn scan_doctype_end(s: &[u8], from: usize) -> (k: usize)
    requires
        from <= s@.len(),
    ensures
        k == doctype_end(s@, from as int, 0),
        from <= k <= s@.len(),
        k < s@.len() ==> s@[k as int] == GT,
{
    let mut i: usize = from;
    let mut depth: usize = 0;
    while i < s.len()
        invariant
            from <= i <= s@.len(),
            depth <= i - from,
            doctype_end(s@, from as int, 0) == doctype_end(s@, i as int, depth as nat),
        decreases s@.len() - i,
    {
        let b = s[i];
        if b == GT && depth == 0 {
            return i;
        } else if b == LBRACKET {
            depth += 1;
        } else if b == RBRACKET && depth > 0 {
            depth -= 1;
        }
        i += 1;
    }
    i
}

} // verus!
