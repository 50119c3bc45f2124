use vstd::prelude::*;

verus! {

/// `c` is the letter `lower` in either ASCII case.
pub open spec fn is_letter(c: char, lower: char, upper: char) -> bool {
    c == lower || c == upper
}

/// `name` equals "top" when ASCII letters are compared without case.
pub open spec fn is_top_name(name: Seq<char>) -> bool {
    &&& name.len() == 3
    &&& is_letter(name[0], 't', 'T')
    &&& is_letter(name[1], 'o', 'O')
    &&& is_letter(name[2], 'p', 'P')
}

/// `name` ends with `ext` (compared exactly, case included).
pub open spec fn has_extension(name: Seq<char>, ext: Seq<char>) -> bool {
    ext.len() <= name.len() && name.subrange(name.len() - ext.len(), name.len() as int) == ext
}

/// `name` ends with one of the recognised extensions.
pub open spec fn is_image_name(name: Seq<char>, exts: Seq<String>) -> bool {
    exists|i: int| 0 <= i < exts.len() && has_extension(name, #[trigger] exts[i]@)
}

/// Whether a directory name is "top", ignoring ASCII case.
pub fn is_top_dir_name(name: &str) -> (r: bool)
    ensures
        r == is_top_name(name@),
{
    if name.unicode_len() != 3 {
        return false;
    }
    let (a, b, c) = (name.get_char(0), name.get_char(1), name.get_char(2));
    (a == 't' || a == 'T') && (b == 'o' || b == 'O') && (c == 'p' || c == 'P')
}

/// Whether `name` ends with `ext`, case-sensitively.
pub fn ends_with_extension(name: &str, ext: &str) -> (r: bool)
    ensures
        r == has_extension(name@, ext@),
{
    let n = name.unicode_len();
    let e = ext.unicode_len();
    if e > n {
        return false;
    }
    let start: usize = n - e;
    let mut i: usize = 0;
    while i < e
        invariant
            n == name@.len(),
            e == ext@.len(),
            e <= n,
            start == n - e,
            i <= e,
            forall|j: int| 0 <= j < i ==> name@[start + j] == #[trigger] ext@[j],
        decreases e - i,
    {
        if name.get_char(start + i) != ext.get_char(i) {
            assert(name@.subrange(start as int, n as int)[i as int] != ext@[i as int]);
            return false;
        }
        i = i + 1;
    }
    assert(name@.subrange(start as int, n as int) =~= ext@);
    true
}

/// Whether a file name carries one of the recognised image extensions.
pub fn is_image_file(name: &str, exts: &Vec<String>) -> (r: bool)
    ensures
        r == is_image_name(name@, exts@),
{
    let mut i: usize = 0;
    while i < exts.len()
        invariant
            i <= exts@.len(),
            forall|j: int| 0 <= j < i ==> !has_extension(name@, #[trigger] exts@[j]@),
        decreases exts@.len() - i,
    {
        if ends_with_extension(name, exts[i].as_str()) {
            return true;
        }
        i = i + 1;
    }
    false
}

} // verus!
