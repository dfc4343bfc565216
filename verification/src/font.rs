//! The `|FONT` table: the fonts that topic text refers to.

use vstd::prelude::*;

use crate::bytes::{le16, u16_at};
use crate::error::{bad_file, new_bad_file, ErrorView};
use crate::system::{nul_string, read_nul_string};
use crate::views::views;
use crate::Error;

verus! {

/// A font descriptor from the `|FONT` table.
#[derive(Debug, Clone)]
pub struct FontDescriptor {
    /// Attributes (bit 0 bold, bit 1 italic, bit 2 underline).
    pub attributes: u8,
    /// Font size in half-points.
    pub half_points: u8,
    /// Font family identifier.
    pub font_family: u8,
    /// Face name.
    pub name: String,
}

/// A font descriptor with its name as a sequence of characters.
pub struct FontDescriptorView {
    pub attributes: u8,
    pub half_points: u8,
    pub font_family: u8,
    pub name: Seq<char>,
}

impl View for FontDescriptor {
    type V = FontDescriptorView;

    open spec fn view(&self) -> FontDescriptorView {
        FontDescriptorView {
            attributes: self.attributes,
            half_points: self.half_points,
            font_family: self.font_family,
            name: self.name@,
        }
    }
}

impl FontDescriptor {
    /// Whether this font is bold.
    pub fn is_bold(&self) -> (b: bool)
        ensures
            b == (self.attributes % 2 == 1),
    {
        self.attributes % 2 == 1
    }

    /// Whether this font is italic.
    pub fn is_italic(&self) -> (b: bool)
        ensures
            b == (self.attributes / 2 % 2 == 1),
    {
        self.attributes / 2 % 2 == 1
    }

    /// Whether this font is underlined.
    pub fn is_underline(&self) -> (b: bool)
        ensures
            b == (self.attributes / 4 % 2 == 1),
    {
        self.attributes / 4 % 2 == 1
    }
}

/// The font table.
#[derive(Debug, Clone)]
pub struct FontTable {
    fonts: Vec<FontDescriptor>,
}

impl View for FontTable {
    type V = Seq<FontDescriptorView>;

    closed spec fn view(&self) -> Seq<FontDescriptorView> {
        views(self.fonts@)
    }
}

/// The name of face `i` in a table of faces of `cell` bytes each.
pub open spec fn face_name(data: Seq<u8>, faces: int, cell: int, i: int) -> Seq<char> {
    nul_string(data.subrange(faces + i * cell, faces + i * cell + cell))
}

/// Descriptor `i` in a table of descriptors of `cell` bytes each. A face that
/// is not there has no name.
pub open spec fn descriptor_at(
    data: Seq<u8>,
    descriptors: int,
    cell: int,
    names: Seq<Seq<char>>,
    i: int,
) -> FontDescriptorView {
    let p = descriptors + i * cell;
    FontDescriptorView {
        attributes: data[p],
        half_points: data[p + 1],
        font_family: data[p + 2],
        name: if le16(data, p + 3) < names.len() {
            names[le16(data, p + 3) as int]
        } else {
            Seq::empty()
        },
    }
}

/// The fonts that the bytes of `|FONT` hold.
///
/// The header gives the number of faces and of descriptors and the offsets of
/// their tables; the size of a face cell and of a descriptor follow from the
/// room that the tables take. A header that makes no sense gives no fonts.
pub open spec fn fonts_result(data: Seq<u8>) -> Result<Seq<FontDescriptorView>, ErrorView> {
    if data.len() < 8 {
        Err(bad_file("|FONT"@, "too small for FONTHEADER"@))
    } else {
        let face_count = le16(data, 0) as int;
        let count = le16(data, 2) as int;
        let faces = le16(data, 4) as int;
        let descriptors = le16(data, 6) as int;
        if face_count == 0 || count == 0 || faces < 8 || descriptors <= faces || descriptors
            > data.len() || (descriptors - faces) % face_count != 0 || (data.len() - descriptors)
            / count < 5 {
            Ok(Seq::empty())
        } else {
            let names = Seq::new(
                face_count as nat,
                |i: int| face_name(data, faces, (descriptors - faces) / face_count, i),
            );
            Ok(
                Seq::new(
                    count as nat,
                    |i: int|
                        descriptor_at(
                            data,
                            descriptors,
                            (data.len() - descriptors) / count,
                            names,
                            i,
                        ),
                ),
            )
        }
    }
}

/// Cell `i` of `n` cells lies within their room.
proof fn lemma_cell(i: int, n: int, cell: int, room: int)
    requires
        0 <= i < n,
        0 <= cell,
        n * cell <= room,
    ensures
        0 <= i * cell,
        i * cell + cell <= room,
{
    assert(i * cell + cell <= n * cell) by (nonlinear_arith)
        requires
            0 <= i < n,
            0 <= cell,
    ;
    assert(0 <= i * cell) by (nonlinear_arith)
        requires
            0 <= i,
            0 <= cell,
    ;
}

impl FontTable {
    /// Parses the bytes of the `|FONT` internal file.
    pub fn from_bytes(data: &[u8]) -> (r: Result<Self, Error>)
        ensures
            match r {
                Ok(t) => fonts_result(data@) == Ok::<Seq<FontDescriptorView>, ErrorView>(t@),
                Err(e) => fonts_result(data@) == Err::<Seq<FontDescriptorView>, ErrorView>(e@),
            },
    {
        if data.len() < 8 {
            return Err(new_bad_file("|FONT", "too small for FONTHEADER"));
        }
        let face_count: usize = u16_at(data, 0) as usize;
        let count: usize = u16_at(data, 2) as usize;
        let faces: usize = u16_at(data, 4) as usize;
        let descriptors: usize = u16_at(data, 6) as usize;
        if face_count == 0 || count == 0 || faces < 8 || descriptors <= faces || descriptors
            > data.len() || (descriptors - faces) % face_count != 0 || (data.len() - descriptors)
            / count < 5 {
            return Ok(FontTable::empty());
        }
        let face_cell: usize = (descriptors - faces) / face_count;
        assert(face_count * face_cell <= descriptors - faces) by {
            vstd::arithmetic::div_mod::lemma_fundamental_div_mod(
                (descriptors - faces) as int,
                face_count as int,
            );
        }
        let mut names: Vec<String> = Vec::new();
        let mut i: usize = 0;
        let len: usize = data.len();
        while i < face_count
            invariant
                i <= face_count,
                len == data@.len(),
                8 <= faces < descriptors <= len,
                face_count * face_cell <= descriptors - faces,
                names@.len() == i,
                forall|k: int|
                    0 <= k < i ==> (#[trigger] names@[k])@ == face_name(
                        data@,
                        faces as int,
                        face_cell as int,
                        k,
                    ),
            decreases face_count - i,
        {
            proof {
                lemma_cell(
                    i as int,
                    face_count as int,
                    face_cell as int,
                    descriptors - faces,
                );
            }
            let start: usize = faces + i * face_cell;
            let cell: &[u8] = vstd::slice::slice_subrange(data, start, start + face_cell);
            names.push(read_nul_string(cell));
            i += 1;
        }
        let ghost all_names = Seq::new(
            face_count as nat,
            |i: int| face_name(data@, faces as int, face_cell as int, i),
        );
        assert(views(names@) =~= all_names);
        let cell: usize = (len - descriptors) / count;
        assert(count * cell <= len - descriptors) by {
            vstd::arithmetic::div_mod::lemma_fundamental_div_mod(
                (len - descriptors) as int,
                count as int,
            );
        }
        let mut fonts: Vec<FontDescriptor> = Vec::new();
        let mut j: usize = 0;
        while j < count
            invariant
                j <= count,
                len == data@.len(),
                descriptors <= len,
                count * cell <= len - descriptors,
                cell >= 5,
                views(names@) == all_names,
                fonts@.len() == j,
                forall|k: int|
                    0 <= k < j ==> (#[trigger] fonts@[k])@ == descriptor_at(
                        data@,
                        descriptors as int,
                        cell as int,
                        all_names,
                        k,
                    ),
            decreases count - j,
        {
            proof {
                lemma_cell(j as int, count as int, cell as int, len - descriptors);
            }
            let p: usize = descriptors + j * cell;
            let face: usize = u16_at(data, p + 3) as usize;
            let name: String = if face < names.len() {
                names[face].clone()
            } else {
                String::new()
            };
            assert(face < names@.len() ==> names@[face as int]@ == all_names[face as int]);
            fonts.push(
                FontDescriptor {
                    attributes: data[p],
                    half_points: data[p + 1],
                    font_family: data[p + 2],
                    name,
                },
            );
            j += 1;
        }
        let table = FontTable { fonts };
        assert(table@ =~= fonts_result(data@)->Ok_0);
        Ok(table)
    }

    /// An empty font table.
    pub fn empty() -> (t: Self)
        ensures
            t@ == Seq::<FontDescriptorView>::empty(),
    {
        let t = FontTable { fonts: Vec::new() };
        assert(t@ =~= Seq::empty());
        t
    }

    /// A font table of the given descriptors.
    pub fn from_descriptors(fonts: Vec<FontDescriptor>) -> (t: Self)
        ensures
            t@ == views(fonts@),
    {
        FontTable { fonts }
    }

    /// The font descriptor with the given index.
    pub fn get(&self, index: usize) -> (r: Option<&FontDescriptor>)
        ensures
            match r {
                Some(f) => index < self@.len() && f@ == self@[index as int],
                None => index >= self@.len(),
            },
    {
        if index < self.fonts.len() {
            Some(&self.fonts[index])
        } else {
            None
        }
    }

    /// Number of fonts in the table.
    pub fn len(&self) -> (n: usize)
        ensures
            n == self@.len(),
    {
        self.fonts.len()
    }

    /// Whether the table is empty.
    pub fn is_empty(&self) -> (b: bool)
        ensures
            b == (self@.len() == 0),
    {
        self.fonts.is_empty()
    }
}

} // verus!
