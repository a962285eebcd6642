use vstd::prelude::*;

use crate::text::{chars_of, find_char, first_of, trim_bounds, trimmed};

verus! {

/// Once trimmed, `line` starts with `@`: it is an entry header.
pub open spec fn is_header_spec(line: Seq<char>) -> bool {
    trimmed(line).len() > 0 && trimmed(line)[0] == '@'
}

/// The identifier that an entry header names, if `line` is one.
///
/// Once trimmed, a header starts with `@`; the identifier runs from just
/// after the first `{` up to the first `,` that follows it (or the end of
/// the line), and is trimmed in turn.  A header without `{`, or with a `,`
/// right after it, names nothing.
pub open spec fn detected(line: Seq<char>) -> Option<Seq<char>> {
    let t = trimmed(line);
    if !is_header_spec(line) {
        None
    } else {
        match first_of(t, '{') {
            None => None,
            Some(b) => {
                let i = b + 1;
                let j = match first_of(t.subrange(i, t.len() as int), ',') {
                    Some(c) => i + c,
                    None => t.len() as int,
                };
                if i >= j {
                    None
                } else {
                    Some(trimmed(t.subrange(i, j)))
                }
            },
        }
    }
}

/// What the first entry header among `lines` names: the identifier, or
/// nothing where that header names none or no line is a header.
pub open spec fn first_reference(lines: Seq<Seq<char>>) -> Option<Seq<char>>
    decreases lines.len(),
{
    if lines.len() == 0 {
        None
    } else if is_header_spec(lines[0]) {
        detected(lines[0])
    } else {
        first_reference(lines.drop_first())
    }
}

/// The characters of each line.
pub open spec fn lines_view(lines: Seq<String>) -> Seq<Seq<char>> {
    lines.map_values(|l: String| l@)
}

/// Lines none of which starts with `@`, once trimmed, name no reference.
pub proof fn lemma_no_header_no_reference(lines: Seq<Seq<char>>)
    requires
        forall|k: int|
            0 <= k < lines.len() ==> trimmed(#[trigger] lines[k]).len() == 0 || trimmed(
                lines[k],
            )[0] != '@',
    ensures
        first_reference(lines) is None,
    decreases lines.len(),
{
    if lines.len() > 0 {
        assert(!is_header_spec(lines[0]));
        assert forall|k: int| 0 <= k < lines.drop_first().len() implies trimmed(
            #[trigger] lines.drop_first()[k],
        ).len() == 0 || trimmed(lines.drop_first()[k])[0] != '@' by {
            assert(lines.drop_first()[k] == lines[k + 1]);
        }
        lemma_no_header_no_reference(lines.drop_first());
    }
}

/// No line of a bibliography names an entry.
#[derive(Clone, Copy, Debug, PartialEq, Eq)]
pub struct ReferenceNotFound;

impl ReferenceNotFound {
    /// What went wrong, in words.
    pub fn message(&self) -> (r: String)
        ensures
            r@ == "failed to find a reference; try specifying one explicitly"@,
    {
        let r = String::from_str("failed to find a reference; try specifying one explicitly");
        r
    }
}

/// Tells whether `line` is an entry header: once trimmed, it starts with `@`.
pub fn is_header(line: &str) -> (r: bool)
    ensures
        r == is_header_spec(line@),
{
    let v = chars_of(line);
    let (a, b) = trim_bounds(&v, 0, v.len());
    assert(v@.subrange(0, v@.len() as int) =~= line@);
    a < b && v[a] == '@'
}

/// Reads the identifier off an entry header such as `@article{key, ...}`.
pub fn detect_reference(line: &str) -> (r: Option<String>)
    ensures
        match detected(line@) {
            Some(id) => r is Some && r->0@ == id,
            None => r is None,
        },
{
    let v = chars_of(line);
    let (a, b) = trim_bounds(&v, 0, v.len());
    let ghost t = v@.subrange(a as int, b as int);
    assert(v@.subrange(0, v@.len() as int) =~= line@);
    if a == b || v[a] != '@' {
        return None;
    }
    let i = match find_char(&v, a, b, '{') {
        Some(i) => i + 1,
        None => return None,
    };
    let j = match find_char(&v, a + i, b, ',') {
        Some(j) => i + j,
        None => b - a,
    };
    assert(t.subrange(i as int, t.len() as int) =~= v@.subrange(a + i, b as int));
    if i >= j {
        return None;
    }
    let (c, d) = trim_bounds(&v, a + i, a + j);
    assert(t.subrange(i as int, j as int) =~= v@.subrange(a + i, a + j));
    Some(line.substring_char(c, d).to_string())
}

/// Finds the identifier that the first entry header among `lines` names.
///
/// The first header decides: where it names no identifier, or no line is a
/// header, the reference is not found.
pub fn find_reference(lines: &Vec<String>) -> (r: Result<String, ReferenceNotFound>)
    ensures
        match first_reference(lines_view(lines@)) {
            Some(id) => r is Ok && r->Ok_0@ == id,
            None => r is Err,
        },
{
    let ghost all = lines_view(lines@);
    let mut k: usize = 0;
    assert(all.skip(0) =~= all);
    while k < lines.len()
        invariant
            k <= lines@.len(),
            all == lines_view(lines@),
            first_reference(all) == first_reference(all.skip(k as int)),
        decreases lines@.len() - k,
    {
        assert(all.skip(k as int)[0] == lines@[k as int]@);
        assert(all.skip(k as int).drop_first() =~= all.skip(k + 1));
        if is_header(lines[k].as_str()) {
            return match detect_reference(lines[k].as_str()) {
                Some(id) => Ok(id),
                None => Err(ReferenceNotFound),
            };
        }
        k = k + 1;
    }
    Err(ReferenceNotFound)
}

} // verus!
