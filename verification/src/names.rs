//! Tests on file names, done on the bytes of the name as the operating
//! system encodes it (`OsStr::as_encoded_bytes`).
use vstd::prelude::*;
use vstd::string::*;

verus! {

/// ASCII lower-casing of one byte; other bytes stay as they are.
pub open spec fn ascii_lower(b: u8) -> u8 {
    if 65 <= b <= 90 {
        (b + 32) as u8
    } else {
        b
    }
}

/// `a` and `b` are equal when ASCII letters are compared without case
/// (`eq_ignore_ascii_case`).
pub open spec fn eq_ignore_ascii_case(a: Seq<u8>, b: Seq<u8>) -> bool {
    &&& a.len() == b.len()
    &&& forall|i: int| 0 <= i < a.len() ==> ascii_lower(#[trigger] a[i]) == ascii_lower(b[i])
}

/// The index of the last `.` in `s`, if there is one.
pub open spec fn last_dot(s: Seq<u8>) -> Option<int>
    decreases s.len(),
{
    if s.len() == 0 {
        None
    } else if s.last() == 46 {
        Some(s.len() - 1)
    } else {
        last_dot(s.drop_last())
    }
}

/// The extension of a file name, as `Path::extension` finds it: what follows
/// the last `.`, provided something comes before that dot and the name is
/// not `..`.
pub open spec fn extension(name: Seq<u8>) -> Option<Seq<u8>> {
    if name == seq![46u8, 46u8] {
        None
    } else {
        match last_dot(name) {
            Some(i) => if i == 0 {
                None
            } else {
                Some(name.subrange(i + 1, name.len() as int))
            },
            None => None,
        }
    }
}

/// The bytes of `pdf`.
pub open spec fn pdf_bytes() -> Seq<u8> {
    seq![112u8, 100u8, 102u8]
}

/// A file name whose extension is `pdf` in any ASCII case.
pub open spec fn is_pdf_file_name(name: Seq<u8>) -> bool {
    match extension(name) {
        Some(ext) => eq_ignore_ascii_case(ext, pdf_bytes()),
        None => false,
    }
}

fn lower_byte(b: u8) -> (r: u8)
    ensures
        r == ascii_lower(b),
{
    if 65 <= b && b <= 90 {
        b + 32
    } else {
        b
    }
}

/// Whether a file name, given as OS-encoded bytes, has the extension `pdf`
/// in any ASCII case.
pub fn has_pdf_extension(name: &[u8]) -> (r: bool)
    ensures
        r == is_pdf_file_name(name@),
{
    let n = name.len();
    if n == 2 && name[0] == 46 && name[1] == 46 {
        assert(name@ =~= seq![46u8, 46u8]);
        return false;
    }
    assert(name@ != seq![46u8, 46u8]) by {
        if name@ == seq![46u8, 46u8] {
            assert(name@[0] == 46 && name@[1] == 46);
        }
    }
    let mut i: usize = n;
    assert(name@.subrange(0, n as int) =~= name@);
    while i > 0 && name[i - 1] != 46
        invariant
            i <= n == name@.len(),
            last_dot(name@) == last_dot(name@.subrange(0, i as int)),
        decreases i,
    {
        assert(name@.subrange(0, i as int).drop_last() =~= name@.subrange(0, i - 1));
        i = i - 1;
    }
    if i == 0 {
        assert(name@.subrange(0, 0) =~= Seq::<u8>::empty());
        return false;
    }
    assert(last_dot(name@) == Some(i - 1));
    if i == 1 {
        return false;
    }
    if n - i != 3 {
        return false;
    }
    let ghost ext = name@.subrange(i as int, n as int);
    let a = lower_byte(name[i]);
    let b = lower_byte(name[i + 1]);
    let c = lower_byte(name[i + 2]);
    let r = a == 112 && b == 100 && c == 102;
    assert(ext[0] == name@[i as int] && ext[1] == name@[i + 1] && ext[2] == name@[i + 2]);
    if r {
        assert forall|k: int| 0 <= k < ext.len() implies ascii_lower(#[trigger] ext[k]) == ascii_lower(
            pdf_bytes()[k],
        ) by {
            if k == 0 {
            } else if k == 1 {
            } else {
            }
        }
    } else {
        proof {
            if eq_ignore_ascii_case(ext, pdf_bytes()) {
                assert(ascii_lower(ext[0]) == ascii_lower(pdf_bytes()[0]));
                assert(ascii_lower(ext[1]) == ascii_lower(pdf_bytes()[1]));
                assert(ascii_lower(ext[2]) == ascii_lower(pdf_bytes()[2]));
            }
        }
    }
    r
}

/// The byte a character of a decoded file name stands for in the extension
/// test: its own code for an ASCII character; for any other character a
/// byte outside ASCII.  Lossy decoding keeps ASCII bytes as they are and
/// gives characters outside ASCII for all other bytes, so the test gives on
/// the decoded name what it gives on the OS bytes.
pub open spec fn ascii_code(c: char) -> u8 {
    if (c as u32) < 128 {
        (c as u32) as u8
    } else {
        128u8
    }
}

/// The bytes a decoded file name stands for in the extension test.
pub open spec fn ascii_codes(name: Seq<char>) -> Seq<u8> {
    Seq::new(name.len(), |i: int| ascii_code(name[i]))
}

/// A decoded file name whose extension is `pdf` in any ASCII case.
pub open spec fn is_pdf_name(name: Seq<char>) -> bool {
    is_pdf_file_name(ascii_codes(name))
}

/// Whether a decoded file name has the extension `pdf` in any ASCII case.
pub fn name_has_pdf_extension(name: &str) -> (r: bool)
    ensures
        r == is_pdf_name(name@),
{
    let n = name.unicode_len();
    let mut codes: Vec<u8> = Vec::new();
    let mut i: usize = 0;
    while i < n
        invariant
            n == name@.len(),
            i <= n,
            codes@ == ascii_codes(name@).take(i as int),
        decreases n - i,
    {
        let c = name.get_char(i);
        let v: u32 = c as u32;
        let b: u8 = if v < 128 {
            v as u8
        } else {
            128
        };
        assert(ascii_codes(name@).take(i + 1) =~= ascii_codes(name@).take(i as int).push(b));
        codes.push(b);
        i = i + 1;
    }
    assert(ascii_codes(name@).take(n as int) =~= ascii_codes(name@));
    has_pdf_extension(codes.as_slice())
}

/// Whether a name starts with `.` (a hidden entry).
pub fn starts_with_dot(name: &str) -> (r: bool)
    ensures
        r == (name@.len() > 0 && name@[0] == '.'),
{
    if name.is_empty() {
        false
    } else {
        name.get_char(0) == '.'
    }
}

} // verus!
