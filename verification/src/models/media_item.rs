//! Media items and how files are classified.
use vstd::prelude::*;

use crate::paths::{lowercase, text_view, to_lowercase};
use crate::single::{of_whole, Single, ONE};
use crate::text::same_text;

verus! {

/// What kind of thing a tile of the grid stands for.
#[derive(Clone, Copy, PartialEq, Eq, Structural, Debug)]
pub enum MediaType {
    Image,
    Video,
    Folder,
}

/// The kind of file that a lower-case extension stands for.
pub open spec fn type_of_extension(ext: Seq<char>) -> Option<MediaType> {
    if ext == "jpg"@ || ext == "jpeg"@ || ext == "png"@ || ext == "webp"@ || ext == "gif"@ || ext
        == "bmp"@ || ext == "tiff"@ || ext == "tif"@ {
        Some(MediaType::Image)
    } else if ext == "webm"@ || ext == "mp4"@ || ext == "mkv"@ || ext == "avi"@ || ext == "mov"@ {
        Some(MediaType::Video)
    } else {
        None
    }
}

impl MediaType {
    /// The kind of file that an extension stands for, in any letter case.
    pub fn from_extension(ext: &str) -> (r: Option<Self>)
        ensures
            r == type_of_extension(lowercase(ext@)),
    {
        let lower = to_lowercase(ext);
        Self::from_lowercase_extension(&lower)
    }

    /// The kind of file that a lower-case extension stands for.
    pub fn from_lowercase_extension(ext: &str) -> (r: Option<Self>)
        ensures
            r == type_of_extension(ext@),
    {
        if same_text(ext, "jpg") || same_text(ext, "jpeg") || same_text(ext, "png") || same_text(
            ext,
            "webp",
        ) || same_text(ext, "gif") || same_text(ext, "bmp") || same_text(ext, "tiff")
            || same_text(ext, "tif") {
            Some(MediaType::Image)
        } else if same_text(ext, "webm") || same_text(ext, "mp4") || same_text(ext, "mkv")
            || same_text(ext, "avi") || same_text(ext, "mov") {
            Some(MediaType::Video)
        } else {
            None
        }
    }
}

/// A file or folder of the grid.
#[derive(Debug)]
pub struct MediaItem {
    pub path: String,
    pub media_type: MediaType,
    pub mtime: i64,
    pub size: i64,
    pub width: u32,
    pub height: u32,
    pub duration_ms: Option<u32>,
    pub thumb_path: Option<String>,
    pub thumb_w: Option<u32>,
    pub thumb_h: Option<u32>,
    pub last_seen: i64,
}

/// The contents of an optional text, shared.
pub open spec fn text_ref_view(s: Option<&String>) -> Option<Seq<char>> {
    match s {
        Some(t) => Some(t@),
        None => None,
    }
}

impl Clone for MediaItem {
    fn clone(&self) -> (r: Self)
        ensures
            r == *self,
    {
        MediaItem {
            path: self.path.clone(),
            media_type: self.media_type,
            mtime: self.mtime,
            size: self.size,
            width: self.width,
            height: self.height,
            duration_ms: self.duration_ms,
            thumb_path: match &self.thumb_path {
                Some(p) => Some(p.clone()),
                None => None,
            },
            thumb_w: self.thumb_w,
            thumb_h: self.thumb_h,
            last_seen: self.last_seen,
        }
    }
}

impl MediaItem {
    /// Nothing but a path, a kind and a size is known of the item.
    pub open spec fn is_bare(self, path: Seq<char>, kind: MediaType, w: u32, h: u32) -> bool {
        &&& self.path@ == path
        &&& self.media_type == kind
        &&& self.width == w
        &&& self.height == h
        &&& self.mtime == 0
        &&& self.size == 0
        &&& self.duration_ms is None
        &&& self.thumb_path is None
        &&& self.thumb_w is None
        &&& self.thumb_h is None
        &&& self.last_seen == 0
    }

    /// An image item with just the fields that display needs.
    pub fn new(path: String, width: u32, height: u32) -> (r: Self)
        ensures
            r.is_bare(path@, MediaType::Image, width, height),
            r.path@ == path@ && r.media_type == MediaType::Image,
            r.width == width && r.height == height,
    {
        MediaItem {
            path,
            media_type: MediaType::Image,
            mtime: 0,
            size: 0,
            width,
            height,
            duration_ms: None,
            thumb_path: None,
            thumb_w: None,
            thumb_h: None,
            last_seen: 0,
        }
    }

    /// A folder item, shown as a square.
    pub fn new_folder(path: String) -> (r: Self)
        ensures
            r.is_bare(path@, MediaType::Folder, 1, 1),
            r.path@ == path@ && r.media_type == MediaType::Folder,
            r.width == 1 && r.height == 1,
    {
        MediaItem {
            path,
            media_type: MediaType::Folder,
            mtime: 0,
            size: 0,
            width: 1,
            height: 1,
            duration_ms: None,
            thumb_path: None,
            thumb_w: None,
            thumb_h: None,
            last_seen: 0,
        }
    }

    /// Width over height; an item without a height is square.
    pub open spec fn aspect(self) -> Single {
        if self.height == 0 {
            Single { bits: ONE }
        } else {
            of_whole(self.width as nat).quotient(of_whole(self.height as nat))
        }
    }

    /// Width over height.
    pub fn aspect_ratio(&self) -> (r: Single)
        ensures
            r == self.aspect(),
    {
        if self.height == 0 {
            Single { bits: ONE }
        } else {
            Single::from_whole(self.width as u64).over(Single::from_whole(self.height as u64))
        }
    }

    /// Whether this is a video.
    pub fn is_video(&self) -> (r: bool)
        ensures
            r == (self.media_type == MediaType::Video),
    {
        self.media_type == MediaType::Video
    }

    /// Whether this is a folder.
    pub fn is_folder(&self) -> (r: bool)
        ensures
            r == (self.media_type == MediaType::Folder),
    {
        self.media_type == MediaType::Folder
    }

    /// The time of the last change to the file.
    pub fn mtime(&self) -> (r: i64)
        ensures
            r == self.mtime,
    {
        self.mtime
    }

    /// The size of the file in bytes.
    pub fn size(&self) -> (r: i64)
        ensures
            r == self.size,
    {
        self.size
    }

    /// The length of a video, where it is known.
    pub fn duration(&self) -> (r: Option<u32>)
        ensures
            r == self.duration_ms,
    {
        self.duration_ms
    }

    /// Where the thumbnail is kept, where there is one.
    pub fn thumb_path(&self) -> (r: Option<&String>)
        ensures
            text_ref_view(r) == text_view(self.thumb_path),
    {
        self.thumb_path.as_ref()
    }

    /// The size of the thumbnail, where both sides are known.
    pub fn thumb_dimensions(&self) -> (r: Option<(u32, u32)>)
        ensures
            r == match (self.thumb_w, self.thumb_h) {
                (Some(w), Some(h)) => Some((w, h)),
                _ => None,
            },
    {
        match (self.thumb_w, self.thumb_h) {
            (Some(w), Some(h)) => Some((w, h)),
            _ => None,
        }
    }

    /// When a scan last saw the file.
    pub fn last_seen(&self) -> (r: i64)
        ensures
            r == self.last_seen,
    {
        self.last_seen
    }
}

} // verus!
