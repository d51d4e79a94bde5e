use vstd::prelude::*;

verus! {

/// Why a reconstruction could not be carried out.
#[derive(Debug, Clone, Copy, PartialEq, Eq, Structural)]
pub enum ReconstructError {
    /// A frame's image data could not be turned into a pixel buffer.
    FrameLoad,
    /// Frames of different sizes were to be compared, or a frame's buffer
    /// does not match its width and height.
    DimensionMismatch,
    /// No frame was supplied.
    EmptyInput,
}

/// One decoded frame: a row-major grid of RGBA pixels.
#[derive(Debug, Clone)]
pub struct Frame {
    pub width: u32,
    pub height: u32,
    pub pixels: Vec<[u8; 4]>,
}

impl Frame {
    /// The buffer holds one pixel per grid position.
    pub open spec fn wf(&self) -> bool {
        self.pixels.len() == self.width as int * self.height as int
    }

    /// Builds a frame, refusing a buffer whose length is not
    /// `width * height`.
    pub fn new(width: u32, height: u32, pixels: Vec<[u8; 4]>) -> (r: Result<Frame, ReconstructError>)
        ensures
            pixels.len() == width as int * height as int ==> r == Ok::<Frame, ReconstructError>(
                Frame { width, height, pixels },
            ),
            pixels.len() != width as int * height as int ==> r == Err::<Frame, ReconstructError>(
                ReconstructError::DimensionMismatch,
            ),
    {
        assert(width as int * height as int <= 0xffff_ffff_ffff_ffff) by (nonlinear_arith)
            requires
                width <= 0xffff_ffff,
                height <= 0xffff_ffff,
        ;
        if pixels.len() as u64 == width as u64 * height as u64 {
            Ok(Frame { width, height, pixels })
        } else {
            Err(ReconstructError::DimensionMismatch)
        }
    }

    /// Takes the pixels of a decoded image, converted to 8-bit RGBA, in
    /// row-major order. Every decoded image gives a frame.
    pub fn from_image(img: &image::DynamicImage) -> (r: Result<Frame, ReconstructError>)
        ensures
            r is Ok,
            r->Ok_0.wf(),
    {
        let (width, height, pixels) = image_rgba(img);
        Frame::new(width, height, pixels)
    }
}

#[verifier::external_type_specification]
#[verifier::external_body]
pub struct ExDynamicImage(image::DynamicImage);

/// Relies on `DynamicImage::to_rgba8` and `ImageBuffer::pixels`: the
/// image's width and height, and its pixels as 8-bit RGBA, one per grid
/// position, row by row.
#[verifier::external_body]
fn image_rgba(img: &image::DynamicImage) -> (r: (u32, u32, Vec<[u8; 4]>))
    ensures
        r.2.len() == r.0 as int * r.1 as int,
{
    let buf = img.to_rgba8();
    (buf.width(), buf.height(), buf.pixels().map(|p| p.0).collect())
}

} // verus!
