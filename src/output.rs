//! How a line of a step's error output is flagged for display: lines that mention
//! a warning or an error, in any letter case. The flag never changes the run.
use vstd::prelude::*;

verus! {

/// The flag of one output line.
#[derive(PartialEq, Eq, Structural, Clone, Copy, Debug)]
pub enum LineClass {
    Plain,
    Warning,
    Error,
}

/// The lowercase form of `s`, as `str::to_lowercase` gives it.
pub uninterp spec fn lower_of(s: Seq<char>) -> Seq<char>;

/// Relies on `str::to_lowercase`: the result depends on the characters alone.
/// The characters are handed back one by one.
#[verifier::external_body]
fn lowercase_chars(s: &str) -> (r: Vec<char>)
    ensures
        r@ == lower_of(s@),
{
    s.to_lowercase().chars().collect()
}

/// `w` occurs in `s` as a run of consecutive characters.
pub open spec fn has_infix(s: Seq<char>, w: Seq<char>) -> bool {
    exists|i: int| 0 <= i && i + w.len() <= s.len() && #[trigger] s.subrange(i, i + w.len()) == w
}

pub open spec fn warning_word() -> Seq<char> {
    seq!['w', 'a', 'r', 'n', 'i', 'n', 'g']
}

pub open spec fn error_word() -> Seq<char> {
    seq!['e', 'r', 'r', 'o', 'r']
}

/// The flag of an already lowercased line: a warning wins over an error.
pub open spec fn class_of(lowered: Seq<char>) -> LineClass {
    if has_infix(lowered, warning_word()) {
        LineClass::Warning
    } else if has_infix(lowered, error_word()) {
        LineClass::Error
    } else {
        LineClass::Plain
    }
}

/// Whether `w` occurs in `s` starting at `i`.
fn occurs_at(s: &Vec<char>, w: &Vec<char>, i: usize) -> (r: bool)
    requires
        i + w.len() <= s.len(),
    ensures
        r == (s@.subrange(i as int, i + w.len()) == w@),
{
    let mut k: usize = 0;
    while k < w.len()
        invariant
            i + w.len() <= s.len(),
            k <= w.len(),
            forall|m: int| 0 <= m < k ==> s@[i + m] == w@[m],
        decreases w.len() - k,
    {
        if s[i + k] != w[k] {
            assert(s@.subrange(i as int, i + w.len())[k as int] != w@[k as int]);
            return false;
        }
        k += 1;
    }
    assert(s@.subrange(i as int, i + w.len()) =~= w@);
    true
}

/// Whether `w` occurs anywhere in `s`.
fn contains_word(s: &Vec<char>, w: &Vec<char>) -> (r: bool)
    ensures
        r == has_infix(s@, w@),
{
    if w.len() > s.len() {
        return false;
    }
    if w.len() == 0 {
        assert(s@.subrange(0, 0 + w@.len() as int) =~= w@);
        return true;
    }
    let count = s.len() - w.len() + 1;
    let mut i: usize = 0;
    while i < count
        invariant
            count == s.len() - w.len() + 1,
            0 < w.len() <= s.len(),
            i <= count,
            forall|j: int| 0 <= j < i ==> #[trigger] s@.subrange(j, j + w.len()) != w@,
        decreases count - i,
    {
        if occurs_at(s, w, i) {
            return true;
        }
        i += 1;
    }
    false
}

/// The flag of a line whose characters are already lowercase.
pub fn classify_lowered(lowered: &Vec<char>) -> (r: LineClass)
    ensures
        r == class_of(lowered@),
{
    let warning = vec!['w', 'a', 'r', 'n', 'i', 'n', 'g'];
    let error = vec!['e', 'r', 'r', 'o', 'r'];
    assert(warning@ =~= warning_word());
    assert(error@ =~= error_word());
    if contains_word(lowered, &warning) {
        LineClass::Warning
    } else if contains_word(lowered, &error) {
        LineClass::Error
    } else {
        LineClass::Plain
    }
}

/// The flag of an output line: `Warning` where it mentions "warning" in any case,
/// else `Error` where it mentions "error", else `Plain`.
pub fn classify_line(line: &str) -> (r: LineClass)
    ensures
        r == class_of(lower_of(line@)),
{
    let lowered = lowercase_chars(line);
    classify_lowered(&lowered)
}

} // verus!
