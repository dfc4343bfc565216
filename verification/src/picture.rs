//! The image files of an output.

use vstd::prelude::*;

use crate::bitmap::{is_bmp, is_placeable, is_wmf};
use crate::markup::{image_stem, sanitize_image_stem};
use crate::rst::{format_of, image_name, image_output_name_with, ImageOutFormat};

verus! {

/// What the conversion of a BMP file to PNG gives: the PNG file; `Err(None)`
/// for data that cannot be read as a BMP file; or the message of the encoder
/// for a picture that it rejects.
pub uninterp spec fn png_of_bmp(data: Seq<u8>) -> Result<Seq<u8>, Option<Seq<char>>>;

/// Whether data starts with the signature of PNG files.
pub open spec fn has_png_signature(data: Seq<u8>) -> bool {
    &&& data.len() >= 8
    &&& data.take(8) == seq![137u8, 80, 78, 71, 13, 10, 26, 10]
}

/// Reads `data` with `image::load_from_memory_with_format` as a BMP file and
/// writes the picture as PNG with `image::DynamicImage::write_to`.
///
/// Taken on trust: the outcome is `png_of_bmp` of the data. The BMP reader
/// rejects data that does not start with `BM`, and a file that the PNG writer
/// completes starts with the PNG signature. Nothing is claimed of the pixels.
#[verifier::external_body]
fn convert_bmp(data: &[u8]) -> (r: Result<Vec<u8>, Option<String>>)
    ensures
        match r {
            Ok(png) => png_of_bmp(data@) == Ok::<Seq<u8>, Option<Seq<char>>>(png@),
            Err(None) => png_of_bmp(data@) == Err::<Seq<u8>, Option<Seq<char>>>(None),
            Err(Some(m)) => png_of_bmp(data@) == Err::<Seq<u8>, Option<Seq<char>>>(Some(m@)),
        },
        !is_bmp(data@) ==> r matches Err(None),
        r matches Ok(png) ==> has_png_signature(png@),
{
    match image::load_from_memory_with_format(data, image::ImageFormat::Bmp) {
        Err(_) => Err(None),
        Ok(picture) => {
            let mut out = std::io::Cursor::new(Vec::new());
            match picture.write_to(&mut out, image::ImageFormat::Png) {
                Ok(()) => Ok(out.into_inner()),
                Err(e) => Err(Some(e.to_string())),
            }
        },
    }
}

/// An image file of the output.
#[derive(Debug)]
pub struct ImageFile {
    /// File name.
    pub name: String,
    /// Contents.
    pub data: Vec<u8>,
    /// The format under which pages refer to the image.
    pub format: ImageOutFormat,
}

/// An image file with its name and contents as sequences.
pub struct ImageFileView {
    pub name: Seq<char>,
    pub data: Seq<u8>,
    pub format: ImageOutFormat,
}

impl View for ImageFile {
    type V = ImageFileView;

    open spec fn view(&self) -> ImageFileView {
        ImageFileView { name: self.name@, data: self.data@, format: self.format }
    }
}

/// The file of an image, or why there is none. A metafile is kept as it is.
/// Other data is kept as the PNG file that it converts to; data that is no BMP
/// file is kept as it is, under the image's own name.
pub open spec fn image_file_result(
    filename: Seq<char>,
    data: Seq<u8>,
    png: Result<Seq<u8>, Option<Seq<char>>>,
) -> Result<ImageFileView, Seq<char>> {
    if is_placeable(data) {
        Ok(
            ImageFileView {
                name: image_name(filename, ImageOutFormat::Wmf),
                data,
                format: ImageOutFormat::Wmf,
            },
        )
    } else {
        match png {
            Ok(png) => Ok(
                ImageFileView {
                    name: image_name(filename, ImageOutFormat::Png),
                    data: png,
                    format: ImageOutFormat::Png,
                },
            ),
            Err(None) => Ok(
                ImageFileView { name: image_stem(filename), data, format: ImageOutFormat::Png },
            ),
            Err(Some(message)) => Err(
                "failed to save "@ + image_name(filename, ImageOutFormat::Png) + ": "@ + message,
            ),
        }
    }
}

/// The view of a conversion result.
pub open spec fn conversion_view(r: Result<Vec<u8>, Option<String>>) -> Result<
    Seq<u8>,
    Option<Seq<char>>,
> {
    match r {
        Ok(png) => Ok(png@),
        Err(None) => Err(None),
        Err(Some(m)) => Err(Some(m@)),
    }
}

/// The file of an image whose conversion to PNG gave `png`.
pub fn place_image(
    filename: &str,
    data: &[u8],
    png: Result<Vec<u8>, Option<String>>,
) -> (r: Result<ImageFile, String>)
    ensures
        match r {
            Ok(f) => image_file_result(filename@, data@, conversion_view(png)) == Ok::<
                ImageFileView,
                Seq<char>,
            >(f@),
            Err(m) => image_file_result(filename@, data@, conversion_view(png)) == Err::<
                ImageFileView,
                Seq<char>,
            >(m@),
        },
{
    if is_wmf(data) {
        return Ok(
            ImageFile {
                name: image_output_name_with(filename, ImageOutFormat::Wmf),
                data: vstd::slice::slice_to_vec(data),
                format: ImageOutFormat::Wmf,
            },
        );
    }
    match png {
        Ok(png) => Ok(
            ImageFile {
                name: image_output_name_with(filename, ImageOutFormat::Png),
                data: png,
                format: ImageOutFormat::Png,
            },
        ),
        Err(None) => Ok(
            ImageFile {
                name: sanitize_image_stem(filename),
                data: vstd::slice::slice_to_vec(data),
                format: ImageOutFormat::Png,
            },
        ),
        Err(Some(reason)) => {
            let mut message = "failed to save ".to_owned();
            let name = image_output_name_with(filename, ImageOutFormat::Png);
            message.append(name.as_str());
            message.append(": ");
            message.append(reason.as_str());
            Err(message)
        },
    }
}

/// The file of an embedded image, and the format under which pages refer to
/// it. Metafiles are kept as they are. Everything else is taken for a BMP file
/// and re-encoded as PNG; data that the BMP reader rejects is kept as it is, so
/// that it can be inspected.
pub fn render_image(filename: &str, data: &[u8]) -> (r: Result<ImageFile, String>)
    ensures
        match r {
            Ok(f) => image_file_result(filename@, data@, png_of_bmp(data@)) == Ok::<
                ImageFileView,
                Seq<char>,
            >(f@),
            Err(m) => image_file_result(filename@, data@, png_of_bmp(data@)) == Err::<
                ImageFileView,
                Seq<char>,
            >(m@),
        },
        !is_bmp(data@) && !is_placeable(data@) ==> (r matches Ok(f) && f@ == (ImageFileView {
            name: image_stem(filename@),
            data: data@,
            format: ImageOutFormat::Png,
        })),
        r matches Ok(f) ==> f.data@ == data@ || has_png_signature(f.data@),
{
    if is_wmf(data) {
        return place_image(filename, data, Err(None));
    }
    let png = convert_bmp(data);
    place_image(filename, data, png)
}

/// The file of a metafile, or of an image that converts to PNG, has the name
/// under which pages refer to it.
pub proof fn law_pages_refer_to_image_files(
    filename: Seq<char>,
    data: Seq<u8>,
    png: Result<Seq<u8>, Option<Seq<char>>>,
    formats: Seq<(Seq<char>, ImageOutFormat)>,
)
    requires
        is_placeable(data) || png is Ok,
    ensures
        image_file_result(filename, data, png) matches Ok(f) && f.name == image_name(
            filename,
            format_of(formats.push((filename, f.format)), filename),
        ),
{
}

/// Data that is kept as it is has the file name of no PNG file, unless the
/// image's own name ends like one.
pub proof fn law_raw_files_do_not_collide(filename: Seq<char>, other: Seq<char>)
    requires
        !(seq!['.'] + "png"@).is_suffix_of(image_stem(filename)),
    ensures
        image_stem(filename) != image_name(other, ImageOutFormat::Png),
{
    let ext = seq!['.'] + "png"@;
    let name = image_name(other, ImageOutFormat::Png);
    assert(name.subrange(name.len() - ext.len(), name.len() as int) =~= ext);
}

/// What becomes of an image: a placeable metafile is kept as `.wmf`; other data
/// is kept as the PNG file that it converts to; data that is no BMP file is kept
/// as it is, under its own name; and a picture that cannot be encoded fails.
pub proof fn law_image_files(
    filename: Seq<char>,
    data: Seq<u8>,
    png: Result<Seq<u8>, Option<Seq<char>>>,
)
    ensures
        data.len() >= 4 && data[0] == 0xD7 && data[1] == 0xCD && data[2] == 0xC6 && data[3] == 0x9A
            ==> (image_file_result(filename, data, png) matches Ok(f) && f.data == data
            && f.format is Wmf && f.name == image_name(filename, ImageOutFormat::Wmf)),
        !is_placeable(data) ==> (png matches Ok(bytes) ==> (image_file_result(
            filename,
            data,
            png,
        ) matches Ok(f) && f.data == bytes && f.format is Png && f.name == image_name(
            filename,
            ImageOutFormat::Png,
        ))),
        !is_placeable(data) ==> (png matches Err(None) ==> (image_file_result(
            filename,
            data,
            png,
        ) matches Ok(f) && f.data == data && f.format is Png && f.name == image_stem(filename))),
        !is_placeable(data) ==> (png matches Err(Some(m)) ==> image_file_result(
            filename,
            data,
            png,
        ) is Err),
        is_placeable(data) ==> data.len() >= 4 && data[0] == 0xD7 && data[1] == 0xCD && data[2]
            == 0xC6 && data[3] == 0x9A,
{
}

} // verus!
