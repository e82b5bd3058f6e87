//! Access to tensors in the safetensors format.

use safetensors::{SafeTensorError, SafeTensors};
use vstd::prelude::*;

verus! {

#[verifier::external_type_specification]
#[verifier::external_body]
pub struct ExSafeTensors<'data>(SafeTensors<'data>);

#[verifier::external_type_specification]
#[verifier::external_body]
pub struct ExSafeTensorError(SafeTensorError);

/// The byte that begins and ends a string.
pub const QUOTE: u8 = 0x22;

/// The byte that makes the next one part of a string.
pub const BACKSLASH: u8 = 0x5c;

/// What an archive holds: for each tensor name the lengths of the dimensions and the bytes of the
/// entries.
pub uninterp spec fn archive_entries(archive: &SafeTensors) -> Map<
    Seq<char>,
    (Seq<usize>, Seq<u8>),
>;

/// What `SafeTensors::deserialize` finds in a file: nothing if it refuses the file.
pub uninterp spec fn parsed_archive(file: Seq<u8>) -> Option<
    Map<Seq<char>, (Seq<usize>, Seq<u8>)>,
>;

/// The name under which a header lists the dimensions of a tensor: "shape".
pub open spec fn dimensions_name() -> Seq<u8> {
    seq![0x73u8, 0x68u8, 0x61u8, 0x70u8, 0x65u8]
}

/// Where a reader of the header stands: inside a string or not, behind a backslash or not, which
/// string it has read last, and what the digits just read, if there are any, amount to.
pub struct Place {
    pub quoted: bool,
    pub escaped: bool,
    pub word: Seq<u8>,
    pub number: nat,
}

/// The place behind `text`, which is read from its beginning.
pub open spec fn place_after(text: Seq<u8>) -> Place
    decreases text.len(),
{
    if text.len() == 0 {
        Place { quoted: false, escaped: false, word: Seq::empty(), number: 0 }
    } else {
        let before = place_after(text.drop_last());
        let b = text.last();
        if before.quoted && !before.escaped && b == QUOTE {
            Place { quoted: false, escaped: false, word: before.word, number: 0 }
        } else if before.quoted {
            Place {
                quoted: true,
                escaped: !before.escaped && b == BACKSLASH,
                word: before.word.push(b),
                number: 0,
            }
        } else if b == QUOTE {
            Place { quoted: true, escaped: false, word: Seq::empty(), number: 0 }
        } else {
            Place {
                quoted: false,
                escaped: false,
                word: before.word,
                number: if 0x30 <= b <= 0x39 {
                    before.number * 10 + (b - 0x30) as nat
                } else {
                    0
                },
            }
        }
    }
}

/// The length of the header, as the first eight bytes of the file declare it.
pub open spec fn declared_len(file: Seq<u8>) -> int {
    file[0] + file[1] * 0x100 + file[2] * 0x1_0000 + file[3] * 0x100_0000 + file[4]
        * 0x1_0000_0000 + file[5] * 0x100_0000_0000 + file[6] * 0x1_0000_0000_0000 + file[7]
        * 0x100_0000_0000_0000
}

/// The header, as far as the file holds it.
pub open spec fn header(file: Seq<u8>) -> Seq<u8> {
    if file.len() < 8 {
        Seq::empty()
    } else if 8 + declared_len(file) <= file.len() {
        file.subrange(8, 8 + declared_len(file))
    } else {
        file.subrange(8, file.len() as int)
    }
}

/// The header has a number that cannot be an offset into the data, and that is not given as a
/// dimension: together with the length of the header it exceeds a `usize`.
pub open spec fn has_huge_offset(file: Seq<u8>) -> bool {
    exists|i: int|
        0 <= i <= header(file).len() && is_huge(
            #[trigger] place_after(header(file).take(i)),
            header(file).len() as int,
        )
}

/// The number just read cannot be an offset, and it does not follow the name of the dimensions.
/// The header has `len` bytes.
pub open spec fn is_huge(place: Place, len: int) -> bool {
    place.number + 8 + len > usize::MAX && place.word != dimensions_name()
}

/// Calls `safetensors::SafeTensors::deserialize`, which reads the header of the file and checks
/// it against the file's length. Whether the file is accepted, and what the archive then holds,
/// depends on the bytes of the file alone. Which error comes for a refused file is left unsaid.
/// The outside function adds the length of the header and the last offset without a check for
/// overflow, so no number that may be an offset can be too large for that. A number behind the
/// name of the dimensions is never read as an offset.
#[verifier::external_body]
pub(crate) fn parse_archive(file: &[u8]) -> (r: Result<SafeTensors<'_>, SafeTensorError>)
    requires
        !has_huge_offset(file@),
    ensures
        match r {
            Ok(archive) => parsed_archive(file@) == Some(archive_entries(&archive)),
            Err(_) => parsed_archive(file@) is None,
        },
{
    SafeTensors::deserialize(file)
}

/// Calls `safetensors::SafeTensors::tensor`, which finds a tensor by its name or fails, and takes
/// the dimensions and the bytes out of the view that it returns.
#[verifier::external_body]
pub(crate) fn find_tensor<'a>(archive: &SafeTensors<'a>, name: &str) -> (r: Option<
    (Vec<usize>, &'a [u8]),
>)
    ensures
        match r {
            Some(found) => archive_entries(archive).contains_key(name@) && archive_entries(
                archive,
            )[name@] == (found.0@, found.1@),
            None => !archive_entries(archive).contains_key(name@),
        },
{
    match archive.tensor(name) {
        Ok(view) => Some((view.shape().to_vec(), view.data())),
        Err(_) => None,
    }
}

/// Whether `file` holds the name of the dimensions from `from` to `to`.
fn is_dimensions_name(file: &[u8], from: usize, to: usize) -> (r: bool)
    requires
        from <= to <= file@.len(),
    ensures
        r == (file@.subrange(from as int, to as int) == dimensions_name()),
{
    let ghost word = file@.subrange(from as int, to as int);
    assert(dimensions_name().len() == 5);
    if to - from != 5 {
        return false;
    }
    let r = file[from] == 0x73 && file[from + 1] == 0x68 && file[from + 2] == 0x61 && file[from + 3]
        == 0x70 && file[from + 4] == 0x65;
    proof {
        assert(word[0] == file@[from as int]);
        assert(word[1] == file@[from + 1]);
        assert(word[2] == file@[from + 2]);
        assert(word[3] == file@[from + 3]);
        assert(word[4] == file@[from + 4]);
        if r {
            assert(word =~= dimensions_name());
        }
    }
    r
}

/// Whether the header has a number that cannot be an offset into the data, and that is not given
/// as a dimension.
pub fn find_huge_offset(file: &[u8]) -> (r: bool)
    ensures
        r == has_huge_offset(file@),
{
    let size = file.len();
    let ghost text = header(file@);
    if size < 8 {
        assert forall|i: int| 0 <= i <= text.len() implies !is_huge(
            #[trigger] place_after(text.take(i)),
            text.len() as int,
        ) by {}
        return false;
    }
    let declared: u64 = file[0] as u64 + file[1] as u64 * 0x100 + file[2] as u64 * 0x1_0000
        + file[3] as u64 * 0x100_0000 + file[4] as u64 * 0x1_0000_0000 + file[5] as u64
        * 0x100_0000_0000 + file[6] as u64 * 0x1_0000_0000_0000 + file[7] as u64
        * 0x100_0000_0000_0000;
    let end = if declared <= (size - 8) as u64 {
        8 + declared as usize
    } else {
        size
    };
    let limit: u128 = (usize::MAX - end) as u128;
    let mut quoted = false;
    let mut escaped = false;
    let mut from: usize = 8;
    let mut to: usize = 8;
    let mut number: u128 = 0;
    assert(place_after(text.take(0)).number == 0);
    assert(file@.subrange(8, 8) =~= Seq::<u8>::empty());
    for i in 8..end
        invariant
            size == file@.len(),
            8 <= end <= size,
            text == header(file@),
            text == file@.subrange(8, end as int),
            limit == usize::MAX - end,
            8 <= from <= to <= i,
            quoted ==> to == i,
            number <= limit * 10 + 9,
            place_after(text.take(i - 8)).quoted == quoted,
            place_after(text.take(i - 8)).escaped == escaped,
            place_after(text.take(i - 8)).word == file@.subrange(from as int, to as int),
            number <= limit ==> place_after(text.take(i - 8)).number == number,
            number > limit ==> place_after(text.take(i - 8)).number > limit,
            forall|k: int|
                0 <= k <= i - 8 ==> !is_huge(
                    #[trigger] place_after(text.take(k)),
                    text.len() as int,
                ),
    {
        let b = file[i];
        proof {
            assert(text.take(i - 7).drop_last() =~= text.take(i - 8));
            assert(text.take(i - 7).last() == b);
        }
        let ghost before = place_after(text.take(i - 8));
        if quoted && !escaped && b == QUOTE {
            quoted = false;
            number = 0;
        } else if quoted {
            escaped = !escaped && b == BACKSLASH;
            to = i + 1;
            number = 0;
            assert(file@.subrange(from as int, to as int) =~= before.word.push(b));
        } else if b == QUOTE {
            quoted = true;
            escaped = false;
            from = i + 1;
            to = i + 1;
            number = 0;
            assert(file@.subrange(from as int, to as int) =~= Seq::<u8>::empty());
        } else {
            escaped = false;
            if !(0x30 <= b && b <= 0x39) {
                number = 0;
            } else if number <= limit {
                number = number * 10 + (b - 0x30) as u128;
            }
        }
        if number > limit && !is_dimensions_name(file, from, to) {
            assert(is_huge(place_after(text.take(i - 7)), text.len() as int));
            return true;
        }
    }
    false
}

} // verus!
