use vstd::prelude::*;

verus! {

/// Everything this library refuses, by reason.
///
/// Each variant is one reason, so a contract can say exactly which inputs
/// produce which refusal.
#[derive(Debug, Clone, Copy, PartialEq, Eq)]
pub enum AppError {
    /// A pixel buffer whose length is not `width * height * 4`.
    PixelBufferLength,
    /// Two bitmaps that had to be the same size were not.
    MismatchedDimensions,
    /// A cursor image outside 1-256 px on a side.
    CursorImageSize,
    /// A cursor file needs at least one image.
    NoImages,
    /// More images than the 16-bit count field can hold.
    TooManyImages,
    /// A size outside 1-256 px was asked of the resolution ladder.
    InvalidCursorSize,
    /// An animated cursor needs at least one frame.
    NoFrames,
    /// Not a cursor, icon or animated cursor.
    NotACursorFile,
    /// The file's directory names no image that lies inside it.
    NoImageInDirectory,
    /// An image inside a cursor file that could not be read.
    UnreadableImage,
    /// An image inside a cursor file with no pixels.
    EmptyImage,
    /// An image inside a cursor file larger than any cursor can be.
    OversizedImage,
    /// A DIB header this library does not recognise.
    UnrecognisedHeader,
    /// A DIB compressed in a way this library does not read.
    UnsupportedCompression,
    /// A DIB that declares no colour depth.
    NoColourDepth,
    /// A DIB whose pixels stop before the image does.
    TruncatedPixels,
    /// An input image with no pixels.
    NoPixels,
    /// An input image beyond the dimension or pixel budget.
    ImageTooLarge,
    /// Not one of the image formats that can be imported.
    UnsupportedFormat,
    /// Too short to be an image at all.
    TooShort,
    /// A sprite sheet needs at least one row and one column.
    EmptyGrid,
    /// More than 64 rows or columns of sprite-sheet cells.
    TooManyCells,
    /// A sprite sheet that does not divide evenly into its cells.
    UnevenGrid,
    /// Nothing but transparency, so nothing to make a cursor from.
    CompletelyTransparent,
    /// An animation to prepare arrived without a frame.
    EmptyAnimation,
    /// Every frame of an animation is nothing but transparency.
    TransparentAnimation,
    /// A role name that is not one of the seventeen.
    UnknownRole,
    /// A link that is not on the allow-list.
    LinkNotAllowed,
    /// A document that does not exist.
    NoSuchDocument,
    /// A scheme with no roles would do nothing.
    EmptyScheme,
    /// No snapshot of the original scheme exists.
    NoSnapshot,
    /// A backup must be saved under a `.zip` name.
    NotAZipName,
    /// An icon file needs at least one image.
    NothingToWrite,
}

/// What each refusal says to the person who caused it.
pub open spec fn error_text(e: AppError) -> Seq<char> {
    match e {
        AppError::PixelBufferLength => "the pixel buffer does not match the image size"@,
        AppError::MismatchedDimensions => "the two images are not the same size"@,
        AppError::CursorImageSize => "a cursor image must be between 1 and 256 pixels on a side"@,
        AppError::NoImages => "a cursor needs at least one image"@,
        AppError::TooManyImages => "too many images for one cursor file"@,
        AppError::InvalidCursorSize => "a cursor size must be between 1 and 256 pixels"@,
        AppError::NoFrames => "an animated cursor needs at least one frame"@,
        AppError::NotACursorFile => "that is not a cursor or icon file"@,
        AppError::NoImageInDirectory => "this cursor file contains no images"@,
        AppError::UnreadableImage => "no image inside this cursor file could be read"@,
        AppError::EmptyImage => "an image inside this cursor file has no pixels"@,
        AppError::OversizedImage => "an image inside this cursor file is larger than any cursor"@,
        AppError::UnrecognisedHeader => "an image inside this cursor file has a header this app does not read"@,
        AppError::UnsupportedCompression => "an image inside this cursor file is compressed in a way this app does not read"@,
        AppError::NoColourDepth => "an image inside this cursor file declares no colour depth"@,
        AppError::TruncatedPixels => "an image inside this cursor file stops before its pixels do"@,
        AppError::NoPixels => "the image has no pixels"@,
        AppError::ImageTooLarge => "the image is too large"@,
        AppError::UnsupportedFormat => "that is not an image format this app imports"@,
        AppError::TooShort => "the file is too short to be an image"@,
        AppError::EmptyGrid => "a sprite sheet needs at least one row and column"@,
        AppError::TooManyCells => "that is too many sprite-sheet cells"@,
        AppError::UnevenGrid => "the sprite sheet does not divide evenly into that grid"@,
        AppError::CompletelyTransparent => "the image is completely transparent, so there is nothing to make a cursor from"@,
        AppError::EmptyAnimation => "the animation has no frames"@,
        AppError::TransparentAnimation => "every frame is completely transparent, so there is nothing to make a cursor from"@,
        AppError::UnknownRole => "that is not a pointer role"@,
        AppError::LinkNotAllowed => "that link is not one Cursed opens"@,
        AppError::NoSuchDocument => "no such document"@,
        AppError::EmptyScheme => "a scheme with no roles would do nothing"@,
        AppError::NoSnapshot => "no original scheme snapshot exists yet, so there is nothing to restore"@,
        AppError::NotAZipName => "a backup must be saved with a .zip name"@,
        AppError::NothingToWrite => "nothing to write"@,
    }
}

impl AppError {
    /// The refusal in words.
    pub fn message(self) -> (text: &'static str)
        ensures
            text@ == error_text(self),
    {
        match self {
            AppError::PixelBufferLength => "the pixel buffer does not match the image size",
            AppError::MismatchedDimensions => "the two images are not the same size",
            AppError::CursorImageSize => "a cursor image must be between 1 and 256 pixels on a side",
            AppError::NoImages => "a cursor needs at least one image",
            AppError::TooManyImages => "too many images for one cursor file",
            AppError::InvalidCursorSize => "a cursor size must be between 1 and 256 pixels",
            AppError::NoFrames => "an animated cursor needs at least one frame",
            AppError::NotACursorFile => "that is not a cursor or icon file",
            AppError::NoImageInDirectory => "this cursor file contains no images",
            AppError::UnreadableImage => "no image inside this cursor file could be read",
            AppError::EmptyImage => "an image inside this cursor file has no pixels",
            AppError::OversizedImage => "an image inside this cursor file is larger than any cursor",
            AppError::UnrecognisedHeader => "an image inside this cursor file has a header this app does not read",
            AppError::UnsupportedCompression => "an image inside this cursor file is compressed in a way this app does not read",
            AppError::NoColourDepth => "an image inside this cursor file declares no colour depth",
            AppError::TruncatedPixels => "an image inside this cursor file stops before its pixels do",
            AppError::NoPixels => "the image has no pixels",
            AppError::ImageTooLarge => "the image is too large",
            AppError::UnsupportedFormat => "that is not an image format this app imports",
            AppError::TooShort => "the file is too short to be an image",
            AppError::EmptyGrid => "a sprite sheet needs at least one row and column",
            AppError::TooManyCells => "that is too many sprite-sheet cells",
            AppError::UnevenGrid => "the sprite sheet does not divide evenly into that grid",
            AppError::CompletelyTransparent => "the image is completely transparent, so there is nothing to make a cursor from",
            AppError::EmptyAnimation => "the animation has no frames",
            AppError::TransparentAnimation => "every frame is completely transparent, so there is nothing to make a cursor from",
            AppError::UnknownRole => "that is not a pointer role",
            AppError::LinkNotAllowed => "that link is not one Cursed opens",
            AppError::NoSuchDocument => "no such document",
            AppError::EmptyScheme => "a scheme with no roles would do nothing",
            AppError::NoSnapshot => "no original scheme snapshot exists yet, so there is nothing to restore",
            AppError::NotAZipName => "a backup must be saved with a .zip name",
            AppError::NothingToWrite => "nothing to write",
        }
    }
}

} // verus!
