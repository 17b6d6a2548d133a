//! The viewer: what it shows, which loads still count, what keys do in it and what
//! its labels say.
use vstd::arithmetic::power2::{lemma2_to64_rest, lemma_pow2_adds, lemma_pow2_pos, pow2};
use vstd::prelude::*;

use crate::double::{Double, ONE, ZERO};
use crate::paths::{
    extension, file_name, is_same_path, path_extension, path_file_name, same_path,
};
use crate::text::{decimal, from_chars, parse_number, parsed_number, push_number, same_text};
use crate::text::{to_chars, trim_chars, trimmed};
use crate::texture_lru::{holds, touched, value_of, StoredTexture};
use crate::ui::keybindings::Key;
use crate::ui::texture_cache::{
    inserted, texture_of, viewer_key, CachedTexture, PrefetchKind, TextureCache,
};
use crate::ui::zoom::PictureView;

verus! {

/// The height that is kept free for the controls, in pixels.
pub const VIEWPORT_TOP_INSET: i32 = 60;

/// The side that a picture is decoded for while the viewer has no size yet.
pub const VIEWPORT_DECODE_FALLBACK: i32 = 2048;

/// How long the viewer waits before it decodes a picture at its full size.
pub const FULL_DECODE_IDLE_DELAY_MS: u64 = 140;

/// The megabytes of textures that are kept.
pub const DEFAULT_PREFETCH_MB: usize = 256;

/// How often the viewer looks whether it has a size to fit a picture to.
pub const LAYOUT_ATTEMPTS: u8 = 30;

/// How often the viewer looks whether it has a size to fit a video to.
pub const VIDEO_LAYOUT_ATTEMPTS: u8 = 60;

/// An ASCII letter in lower case; any other character as it is.
pub open spec fn lower_char(c: char) -> char {
    if 'A' <= c <= 'Z' {
        (c as u32 + 32) as char
    } else {
        c
    }
}

/// A text with its ASCII letters in lower case.
pub open spec fn ascii_lower(s: Seq<char>) -> Seq<char> {
    s.map_values(|c: char| lower_char(c))
}

fn to_ascii_lower(chars: &[char]) -> (r: String)
    ensures
        r@ == ascii_lower(chars@),
{
    let mut out: Vec<char> = Vec::new();
    let mut i: usize = 0;
    while i < chars.len()
        invariant
            i <= chars@.len(),
            out@ == ascii_lower(chars@.take(i as int)),
        decreases chars@.len() - i,
    {
        let c: char = chars[i];
        if 'A' <= c && c <= 'Z' {
            out.push((c as u8 + 32) as char);
        } else {
            out.push(c);
        }
        assert(out@ =~= ascii_lower(chars@.take(i + 1)));
        i = i + 1;
    }
    assert(chars@.take(chars@.len() as int) =~= chars@);
    from_chars(&out)
}

/// Whether a text is one of those that switch something on.
pub open spec fn is_on(s: Seq<char>) -> bool {
    let t = ascii_lower(trimmed(s));
    t == "1"@ || t == "true"@ || t == "yes"@ || t == "on"@
}

/// Whether videos are handed to the compositor, by the setting in the environment.
pub fn video_offload_enabled(setting: Option<&str>) -> (r: bool)
    ensures
        r == match setting {
            Some(s) => is_on(s@),
            None => false,
        },
{
    match setting {
        Some(s) => {
            let chars = to_chars(s);
            let t = to_ascii_lower(&trim_chars(&chars));
            same_text(&t, "1") || same_text(&t, "true") || same_text(&t, "yes") || same_text(
                &t,
                "on",
            )
        },
        None => false,
    }
}

/// The megabytes of textures to keep, by a setting: a positive number.
pub open spec fn prefetch_megabytes(setting: Option<Seq<char>>) -> nat {
    match setting {
        Some(s) => match parsed_number(s, usize::MAX as nat) {
            Some(n) => if n > 0 {
                n
            } else {
                DEFAULT_PREFETCH_MB as nat
            },
            None => DEFAULT_PREFETCH_MB as nat,
        },
        None => DEFAULT_PREFETCH_MB as nat,
    }
}

/// The bytes of textures to keep, by the setting in the environment; nothing where
/// the number of bytes is too large.
pub fn prefetch_cache_bytes(setting: Option<&str>) -> (r: Option<usize>)
    ensures
        ({
            let mb = prefetch_megabytes(
                match setting {
                    Some(s) => Some(s@),
                    None => None,
                },
            );
            match r {
                Some(n) => n == mb * 0x10_0000,
                None => mb * 0x10_0000 > usize::MAX,
            }
        }),
{
    let mb: u64 = match setting {
        Some(s) => match parse_number(s, usize::MAX as u64) {
            Some(n) => if n > 0 {
                n
            } else {
                DEFAULT_PREFETCH_MB as u64
            },
            None => DEFAULT_PREFETCH_MB as u64,
        },
        None => DEFAULT_PREFETCH_MB as u64,
    };
    let bytes: u128 = mb as u128 * 0x10_0000;
    if bytes <= usize::MAX as u128 {
        Some(bytes as usize)
    } else {
        None
    }
}

/// Whether a path names a video.
pub open spec fn names_video(path: Seq<char>) -> bool {
    match path_extension(path) {
        Some(ext) => {
            let e = ascii_lower(ext);
            e == "mp4"@ || e == "webm"@ || e == "mkv"@ || e == "avi"@ || e == "mov"@
        },
        None => false,
    }
}

/// Whether a path names a video.
pub fn is_video_path(path: &str) -> (r: bool)
    ensures
        r == names_video(path@),
{
    match extension(path) {
        Some(ext) => {
            let chars = to_chars(&ext);
            let e = to_ascii_lower(&chars);
            same_text(&e, "mp4") || same_text(&e, "webm") || same_text(&e, "mkv") || same_text(
                &e,
                "avi",
            ) || same_text(&e, "mov")
        },
        None => false,
    }
}

/// A picture to decode before it is asked for.
#[derive(Debug)]
pub struct PrefetchItem {
    pub path: String,
    pub kind: PrefetchKind,
}

/// The part of the viewer that shows the picture, as its place and its size:
/// nothing while the viewer has no size.
pub open spec fn viewport(full_w: i32, full_h: i32) -> Option<(i32, i32, i32, i32)> {
    if full_w <= 0 || full_h <= 0 {
        None
    } else {
        Some(
            (
                0i32,
                VIEWPORT_TOP_INSET,
                full_w,
                if full_h - VIEWPORT_TOP_INSET > 1 {
                    (full_h - VIEWPORT_TOP_INSET) as i32
                } else {
                    1
                },
            ),
        )
    }
}

/// The part of the viewer that shows the picture.
pub fn viewport_rect(full_w: i32, full_h: i32) -> (r: Option<(i32, i32, i32, i32)>)
    ensures
        r == viewport(full_w, full_h),
{
    if full_w <= 0 || full_h <= 0 {
        return None;
    }
    let height: i32 = if full_h - VIEWPORT_TOP_INSET > 1 {
        full_h - VIEWPORT_TOP_INSET
    } else {
        1
    };
    Some((0, VIEWPORT_TOP_INSET, full_w, height))
}

/// The side that a picture is decoded for: one and a half times the longer side of
/// the viewport, rounded, within bounds.
pub open spec fn decode_target(longer: int) -> u32 {
    let n = (3 * longer + 1) / 2;
    if n < 1024 {
        1024
    } else if n > 4096 {
        4096
    } else {
        n as u32
    }
}

/// The side that a picture is decoded for, given the viewport.
pub fn viewport_decode_target(viewport: Option<(i32, i32, i32, i32)>) -> (r: u32)
    ensures
        r == match viewport {
            Some((_, _, w, h)) => decode_target(
                if w > h && w > 1 {
                    w as int
                } else if h > 1 {
                    h as int
                } else {
                    1
                },
            ),
            None => decode_target(VIEWPORT_DECODE_FALLBACK as int),
        },
{
    let longer: i64 = match viewport {
        Some((_, _, w, h)) => if w > h && w > 1 {
            w as i64
        } else if h > 1 {
            h as i64
        } else {
            1
        },
        None => VIEWPORT_DECODE_FALLBACK as i64,
    };
    let n: i64 = (3 * longer + 1) / 2;
    if n < 1024 {
        1024
    } else if n > 4096 {
        4096
    } else {
        n as u32
    }
}

/// Whether a buffer holds the pixels of a picture that has some.
pub fn is_texture_data(len: usize, width: u32, height: u32) -> (r: bool)
    ensures
        r == (width > 0 && height > 0 && len >= 4 * width * height),
{
    assert(width * height <= 0xffff_ffff * 0xffff_ffff) by (nonlinear_arith)
        requires
            width <= 0xffff_ffff,
            height <= 0xffff_ffff,
    ;
    assert(4 * width * height == 4 * (width * height)) by (nonlinear_arith);
    width > 0 && height > 0 && len as u128 >= 4 * (width as u128 * height as u128)
}

/// The memory that a texture needs, as far as it can be counted.
pub open spec fn texture_bytes(width: u32, height: u32) -> nat {
    if 4 * width * height < usize::MAX {
        (4 * width * height) as nat
    } else {
        usize::MAX as nat
    }
}

fn count_texture_bytes(width: u32, height: u32) -> (r: usize)
    ensures
        r == texture_bytes(width, height),
{
    assert(width * height <= 0xffff_ffff * 0xffff_ffff) by (nonlinear_arith)
        requires
            width <= 0xffff_ffff,
            height <= 0xffff_ffff,
    ;
    assert(4 * width * height == 4 * (width * height)) by (nonlinear_arith);
    let n: u128 = 4 * (width as u128 * height as u128);
    if n < usize::MAX as u128 {
        n as usize
    } else {
        usize::MAX
    }
}

/// A picture that was loaded.
#[derive(Clone, Copy, PartialEq, Eq, Structural, Debug)]
pub struct LoadResult {
    pub width: u32,
    pub height: u32,
    pub orig_width: u32,
    pub orig_height: u32,
    pub is_preview: bool,
    pub cache_kind: PrefetchKind,
}

/// What the viewer does first when it is to show something.
#[derive(Clone, Copy, PartialEq, Eq, Structural, Debug)]
pub enum ShowStep {
    /// Play the video.
    Video,
    /// Show the full picture that was kept; nothing is left to load.
    Cached(CachedTexture),
    /// Show the preview that was kept, and load the picture.
    Preview(CachedTexture),
    /// Load preview and picture; a thumbnail may be shown meanwhile.
    Load,
}

/// What is done about a viewer that may have no size yet.
#[derive(Clone, Copy, PartialEq, Eq, Structural, Debug)]
pub enum RetryStep {
    /// It is no longer needed.
    Stop,
    /// Fit the picture to the window.
    Fit,
    /// Place the picture as the user left it.
    Place,
    /// Look again later.
    Again,
}

/// What a key does in the viewer.
#[derive(Clone, Copy, PartialEq, Eq, Structural, Debug)]
pub enum ViewerCommand {
    /// The key is not for the viewer.
    Pass,
    Hide,
    PlayPause,
    ZoomIn,
    ZoomOut,
    Fit,
    ActualSize,
    SeekBack,
    SeekForward,
    PanLeft,
    PanRight,
    PanUp,
    PanDown,
    RotateLeft,
    RotateRight,
}

/// What a key does in the viewer.
pub open spec fn viewer_command(key: Key, is_video: bool) -> ViewerCommand {
    match key {
        Key::Escape | Key::Char('q') => ViewerCommand::Hide,
        Key::Char(' ') => if is_video {
            ViewerCommand::PlayPause
        } else {
            ViewerCommand::Pass
        },
        Key::Char('+') | Key::Char('=') | Key::KpAdd => ViewerCommand::ZoomIn,
        Key::Char('-') | Key::KpSubtract => ViewerCommand::ZoomOut,
        Key::Char('0') | Key::KpZero => ViewerCommand::Fit,
        Key::Char('1') | Key::KpOne => ViewerCommand::ActualSize,
        Key::Left | Key::Char('h') => if is_video {
            ViewerCommand::SeekBack
        } else {
            ViewerCommand::PanLeft
        },
        Key::Right | Key::Char('l') => if is_video {
            ViewerCommand::SeekForward
        } else {
            ViewerCommand::PanRight
        },
        Key::Up | Key::Char('k') => ViewerCommand::PanUp,
        Key::Down | Key::Char('j') => ViewerCommand::PanDown,
        Key::Char('[') => if is_video {
            ViewerCommand::Pass
        } else {
            ViewerCommand::RotateLeft
        },
        Key::Char(']') => if is_video {
            ViewerCommand::Pass
        } else {
            ViewerCommand::RotateRight
        },
        _ => ViewerCommand::Pass,
    }
}

/// What a key does in the viewer.
pub fn command_for_key(key: Key, is_video: bool) -> (r: ViewerCommand)
    ensures
        r == viewer_command(key, is_video),
{
    match key {
        Key::Escape | Key::Char('q') => ViewerCommand::Hide,
        Key::Char(' ') => if is_video {
            ViewerCommand::PlayPause
        } else {
            ViewerCommand::Pass
        },
        Key::Char('+') | Key::Char('=') | Key::KpAdd => ViewerCommand::ZoomIn,
        Key::Char('-') | Key::KpSubtract => ViewerCommand::ZoomOut,
        Key::Char('0') | Key::KpZero => ViewerCommand::Fit,
        Key::Char('1') | Key::KpOne => ViewerCommand::ActualSize,
        Key::Left | Key::Char('h') => if is_video {
            ViewerCommand::SeekBack
        } else {
            ViewerCommand::PanLeft
        },
        Key::Right | Key::Char('l') => if is_video {
            ViewerCommand::SeekForward
        } else {
            ViewerCommand::PanRight
        },
        Key::Up | Key::Char('k') => ViewerCommand::PanUp,
        Key::Down | Key::Char('j') => ViewerCommand::PanDown,
        Key::Char('[') => if is_video {
            ViewerCommand::Pass
        } else {
            ViewerCommand::RotateLeft
        },
        Key::Char(']') => if is_video {
            ViewerCommand::Pass
        } else {
            ViewerCommand::RotateRight
        },
        _ => ViewerCommand::Pass,
    }
}

/// The factor of a step of zooming in, 1.25.
pub const ZOOM_IN_FACTOR: u64 = 0x3ff4_0000_0000_0000;

/// The factor of a step of zooming out, 0.8.
pub const ZOOM_OUT_FACTOR: u64 = 0x3fe9_9999_9999_999a;

/// The factor of a step of the wheel, 1.1.
pub const WHEEL_FACTOR: u64 = 0x3ff1_9999_9999_999a;

/// How far a key moves the picture to the right or down, 50 pixels.
pub const PAN_STEP: u64 = 0x4049_0000_0000_0000;

/// How far a key moves the picture to the left or up, 50 pixels.
pub const PAN_STEP_BACK: u64 = 0xc049_0000_0000_0000;

/// How far a jump in a video goes, in microseconds.
pub const SEEK_STEP: i64 = 5_000_000;

/// What a command does.
#[derive(Clone, Copy, PartialEq, Eq, Structural, Debug)]
pub enum ViewerAct {
    Nothing,
    Hide,
    PlayPause,
    /// Scale by a factor.
    ZoomBy(Double),
    /// Scale to this.
    ScaleTo(Double),
    Fit,
    /// Jump so many microseconds.
    SeekBy(i64),
    /// Move to the right and down.
    PanBy(Double, Double),
    /// Turn by quarters, clockwise.
    RotateBy(i8),
}

/// What a command does, and by how much.
pub open spec fn command_act(command: ViewerCommand) -> ViewerAct {
    let none = Double { bits: ZERO };
    let ahead = Double { bits: PAN_STEP };
    let back = Double { bits: PAN_STEP_BACK };
    match command {
        ViewerCommand::Pass => ViewerAct::Nothing,
        ViewerCommand::Hide => ViewerAct::Hide,
        ViewerCommand::PlayPause => ViewerAct::PlayPause,
        ViewerCommand::ZoomIn => ViewerAct::ZoomBy(Double { bits: ZOOM_IN_FACTOR }),
        ViewerCommand::ZoomOut => ViewerAct::ZoomBy(Double { bits: ZOOM_OUT_FACTOR }),
        ViewerCommand::Fit => ViewerAct::Fit,
        ViewerCommand::ActualSize => ViewerAct::ScaleTo(Double { bits: ONE }),
        ViewerCommand::SeekBack => ViewerAct::SeekBy((-SEEK_STEP) as i64),
        ViewerCommand::SeekForward => ViewerAct::SeekBy(SEEK_STEP),
        ViewerCommand::PanLeft => ViewerAct::PanBy(back, none),
        ViewerCommand::PanRight => ViewerAct::PanBy(ahead, none),
        ViewerCommand::PanUp => ViewerAct::PanBy(none, back),
        ViewerCommand::PanDown => ViewerAct::PanBy(none, ahead),
        ViewerCommand::RotateLeft => ViewerAct::RotateBy(-1i8),
        ViewerCommand::RotateRight => ViewerAct::RotateBy(1i8),
    }
}

impl ViewerCommand {
    /// What the command does, and by how much.
    pub fn act(self) -> (r: ViewerAct)
        ensures
            r == command_act(self),
    {
        let none = Double { bits: ZERO };
        let ahead = Double { bits: PAN_STEP };
        let back = Double { bits: PAN_STEP_BACK };
        match self {
            ViewerCommand::Pass => ViewerAct::Nothing,
            ViewerCommand::Hide => ViewerAct::Hide,
            ViewerCommand::PlayPause => ViewerAct::PlayPause,
            ViewerCommand::ZoomIn => ViewerAct::ZoomBy(Double { bits: ZOOM_IN_FACTOR }),
            ViewerCommand::ZoomOut => ViewerAct::ZoomBy(Double { bits: ZOOM_OUT_FACTOR }),
            ViewerCommand::Fit => ViewerAct::Fit,
            ViewerCommand::ActualSize => ViewerAct::ScaleTo(Double { bits: ONE }),
            ViewerCommand::SeekBack => ViewerAct::SeekBy(-SEEK_STEP),
            ViewerCommand::SeekForward => ViewerAct::SeekBy(SEEK_STEP),
            ViewerCommand::PanLeft => ViewerAct::PanBy(back, none),
            ViewerCommand::PanRight => ViewerAct::PanBy(ahead, none),
            ViewerCommand::PanUp => ViewerAct::PanBy(none, back),
            ViewerCommand::PanDown => ViewerAct::PanBy(none, ahead),
            ViewerCommand::RotateLeft => ViewerAct::RotateBy(-1),
            ViewerCommand::RotateRight => ViewerAct::RotateBy(1),
        }
    }
}

/// Seconds to the nearest whole one, a half going up, none being below zero.
pub open spec fn nearest_second(seconds: Double) -> u64 {
    if seconds.nearest_wide() > i64::MAX {
        i64::MAX as u64
    } else {
        seconds.nearest_wide()
    }
}

/// Rounds seconds to whole ones.
pub fn whole_seconds(seconds: Double) -> (r: u64)
    ensures
        r == nearest_second(seconds),
{
    let n: u64 = seconds.round_to_wide();
    if n > i64::MAX as u64 {
        i64::MAX as u64
    } else {
        n
    }
}

/// How long a video is, in whole seconds, where that is known.
pub fn known_duration(seconds: Double) -> (r: Option<u64>)
    ensures
        r == if (Double { bits: ZERO }).less(seconds) {
            Some(nearest_second(seconds))
        } else {
            None
        },
{
    if (Double { bits: ZERO }).is_less(seconds) {
        Some(whole_seconds(seconds))
    } else {
        None
    }
}

/// Where a video goes on after a jump, in microseconds.
pub fn seek_target(current: i64, delta: i64) -> (r: i64)
    ensures
        r == if current + delta < 0 {
            0
        } else if current + delta > i64::MAX {
            i64::MAX as int
        } else {
            current + delta
        },
{
    let n: i128 = current as i128 + delta as i128;
    if n < 0 {
        0
    } else if n > i64::MAX as i128 {
        i64::MAX
    } else {
        n as i64
    }
}

/// The file name of a path, or a word in its place.
pub open spec fn shown_name(path: Option<Seq<char>>) -> Seq<char> {
    match path {
        Some(p) => match path_file_name(p) {
            Some(name) => name,
            None => "Unknown"@,
        },
        None => "Unknown"@,
    }
}

/// A path as plain text.
pub open spec fn path_text(path: Option<String>) -> Option<Seq<char>> {
    match path {
        Some(p) => Some(p@),
        None => None,
    }
}

fn name_to_show(path: &Option<String>) -> (r: String)
    ensures
        r@ == shown_name(path_text(*path)),
{
    match path {
        Some(p) => match file_name(p) {
            Some(name) => name,
            None => "Unknown".to_owned(),
        },
        None => "Unknown".to_owned(),
    }
}

/// Two decimal digits, or more where the number needs them.
pub open spec fn two_digits(n: nat) -> Seq<char> {
    if n < 10 {
        seq!['0'] + decimal(n)
    } else {
        decimal(n)
    }
}

fn push_two_digits(out: &mut String, n: u64)
    ensures
        final(out)@ == old(out)@ + two_digits(n as nat),
{
    if n < 10 {
        out.push('0');
    }
    push_number(out, n as u128);
    assert(out@ =~= old(out)@ + two_digits(n as nat));
}

/// Seconds as hours, where there are any, minutes and seconds.
pub open spec fn timestamp(seconds: nat) -> Seq<char> {
    let h = seconds / 3600;
    let m = (seconds % 3600) / 60;
    let s = seconds % 60;
    if h > 0 {
        two_digits(h) + seq![':'] + two_digits(m) + seq![':'] + two_digits(s)
    } else {
        two_digits(m) + seq![':'] + two_digits(s)
    }
}

/// Seconds as hours, where there are any, minutes and seconds.
pub fn format_timestamp(seconds: u64) -> (r: String)
    ensures
        r@ == timestamp(seconds as nat),
{
    let h: u64 = seconds / 3600;
    let m: u64 = (seconds % 3600) / 60;
    let s: u64 = seconds % 60;
    let mut out = String::new();
    if h > 0 {
        push_two_digits(&mut out, h);
        out.push(':');
    }
    push_two_digits(&mut out, m);
    out.push(':');
    push_two_digits(&mut out, s);
    assert(out@ =~= timestamp(seconds as nat));
    out
}

/// What the label says of a video: where it is, and how long it is where that is
/// known.
pub open spec fn video_info(path: Option<Seq<char>>, position: nat, duration: Option<nat>) -> Seq<
    char,
> {
    let name = "> "@ + shown_name(path) + " ["@ + timestamp(position);
    match duration {
        Some(d) => name + " / "@ + timestamp(d) + seq![']'],
        None => name + seq![']'],
    }
}

/// What the label says of a video.
pub fn video_info_text(path: &Option<String>, position: u64, duration: Option<u64>) -> (r: String)
    ensures
        r@ == video_info(
            path_text(*path),
            position as nat,
            match duration {
                Some(d) => Some(d as nat),
                None => None,
            },
        ),
{
    let name = name_to_show(path);
    let pos = format_timestamp(position);
    let mut out = String::new();
    out.push_str("> ");
    out.push_str(&name);
    out.push_str(" [");
    out.push_str(&pos);
    if let Some(d) = duration {
        let dur = format_timestamp(d);
        out.push_str(" / ");
        out.push_str(&dur);
    }
    out.push(']');
    assert(out@ =~= video_info(
        path_text(*path),
        position as nat,
        match duration {
            Some(d) => Some(d as nat),
            None => None,
        },
    ));
    out
}

/// What the label says while something is loaded.
pub fn loading_text(path: &str) -> (r: String)
    ensures
        r@ == "> Loading: "@ + shown_name(Some(path@)),
{
    let name = name_to_show(&Some(path.to_owned()));
    let mut out = String::new();
    out.push_str("> Loading: ");
    out.push_str(&name);
    assert(out@ =~= "> Loading: "@ + shown_name(Some(path@)));
    out
}

/// What the label says of a picture: its name, its size, how it is turned, its
/// scale and whether it is a preview.
pub open spec fn picture_info(
    path: Option<Seq<char>>,
    size: Option<(u32, u32)>,
    rotation: u8,
    percent: u32,
    is_preview: bool,
) -> Seq<char> {
    let dims = match size {
        Some((w, h)) => " ["@ + decimal(w as nat) + seq!['x'] + decimal(h as nat) + seq![']'],
        None => seq![],
    };
    let turned = if rotation == 0 {
        seq![]
    } else {
        " [rot:"@ + decimal((rotation * 90) as nat) + seq![']']
    };
    let loading = if is_preview {
        " (preview)"@
    } else {
        seq![]
    };
    "> "@ + shown_name(path) + dims + turned + " @ "@ + decimal(percent as nat) + seq!['%']
        + loading
}

/// What the label says of a picture.
pub fn picture_info_text(
    path: &Option<String>,
    size: Option<(u32, u32)>,
    rotation: u8,
    percent: u32,
    is_preview: bool,
) -> (r: String)
    ensures
        r@ == picture_info(path_text(*path), size, rotation, percent, is_preview),
{
    let name = name_to_show(path);
    let mut out = String::new();
    out.push_str("> ");
    out.push_str(&name);
    if let Some((w, h)) = size {
        out.push_str(" [");
        push_number(&mut out, w as u128);
        out.push('x');
        push_number(&mut out, h as u128);
        out.push(']');
    }
    if rotation != 0 {
        out.push_str(" [rot:");
        push_number(&mut out, rotation as u128 * 90);
        out.push(']');
    }
    out.push_str(" @ ");
    push_number(&mut out, percent as u128);
    out.push('%');
    if is_preview {
        out.push_str(" (preview)");
    }
    assert(out@ =~= picture_info(path_text(*path), size, rotation, percent, is_preview));
    out
}

/// The label that shows the scale.
pub fn zoom_text(percent: u32) -> (r: String)
    ensures
        r@ == decimal(percent as nat).push('%'),
{
    let mut out = String::new();
    push_number(&mut out, percent as u128);
    out.push('%');
    assert(out@ =~= decimal(percent as nat).push('%'));
    out
}

/// The label of the button that plays and pauses.
pub fn play_label(playing: bool) -> (r: &'static str)
    ensures
        r@ == if playing {
            "[PAUSE]"@
        } else {
            "[PLAY]"@
        },
{
    if playing {
        "[PAUSE]"
    } else {
        "[PLAY]"
    }
}

/// The label of the favourite button and the favourite mark.
pub fn favorite_labels(is_favorite: bool) -> (r: (&'static str, &'static str))
    ensures
        r.0@ == if is_favorite {
            "[FAV +]"@
        } else {
            "[FAV -]"@
        },
        r.1@ == if is_favorite {
            "+"@
        } else {
            "-"@
        },
{
    if is_favorite {
        ("[FAV +]", "+")
    } else {
        ("[FAV -]", "-")
    }
}

/// What the viewer shows. What is shown last has the current generation; loads for
/// an earlier one no longer count.
pub struct MediaViewer {
    pub current_path: Option<String>,
    /// Quarter turns clockwise.
    pub rotation: u8,
    pub is_video: bool,
    pub image_width: u32,
    pub image_height: u32,
    pub visible: bool,
    pub is_loading: bool,
    /// Whether the user moved or scaled the picture.
    pub user_interacted: bool,
    pub is_favorite: bool,
    pub generation: u64,
    pub prefetch_generation: u64,
    /// How the picture is scaled and moved.
    pub view: PictureView,
    pub cache: TextureCache,
}

/// The number after the largest is zero again.
pub open spec fn next(n: u64) -> u64 {
    if n == u64::MAX {
        0
    } else {
        (n + 1) as u64
    }
}

fn next_number(n: u64) -> (r: u64)
    ensures
        r == next(n),
{
    if n == u64::MAX {
        0
    } else {
        n + 1
    }
}

impl MediaViewer {
    /// Turns are less than a whole one, and the cache keeps to its limit.
    pub open spec fn wf(self) -> bool {
        self.rotation < 4 && self.cache.wf()
    }

    /// Nothing but the cache, and the two generations, may differ from `other`.
    pub open spec fn same_view(self, other: Self) -> bool {
        &&& self.current_path == other.current_path
        &&& self.rotation == other.rotation
        &&& self.is_video == other.is_video
        &&& self.image_width == other.image_width
        &&& self.image_height == other.image_height
        &&& self.visible == other.visible
        &&& self.is_loading == other.is_loading
        &&& self.user_interacted == other.user_interacted
        &&& self.is_favorite == other.is_favorite
        &&& self.view == other.view
    }

    /// The viewer shows nothing.
    pub fn new(cache_bytes: usize) -> (r: Self)
        ensures
            r.wf(),
            r.current_path is None,
            r.rotation == 0,
            !r.is_video && !r.visible && !r.is_loading && !r.user_interacted && !r.is_favorite,
            r.image_width == 0 && r.image_height == 0,
            r.generation == 0 && r.prefetch_generation == 0,
            r.view == r.view.reset(),
            r.cache.limit() == cache_bytes,
            r.cache.kept().len() == 0,
    {
        MediaViewer {
            current_path: None,
            rotation: 0,
            is_video: false,
            image_width: 0,
            image_height: 0,
            visible: false,
            is_loading: false,
            user_interacted: false,
            is_favorite: false,
            generation: 0,
            prefetch_generation: 0,
            view: PictureView::new(),
            cache: TextureCache::new(cache_bytes),
        }
    }

    /// Begins to show a file. Another file than before is not turned.
    pub fn show(&mut self, path: &str) -> (r: ShowStep)
        requires
            old(self).wf(),
        ensures
            final(self).wf(),
            is_shown(*old(self), path@, *final(self), r),
            path_text(final(self).current_path) == Some(path@),
            final(self).visible && !final(self).user_interacted,
            final(self).generation != old(self).generation,
            final(self).view.scale.bits == ONE && final(self).view.pan_x.bits == ZERO
                && final(self).view.pan_y.bits == ZERO,
            path_text(old(self).current_path) matches Some(p) && same_path(p, path@)
                ==> final(self).rotation == old(self).rotation,
            path_text(old(self).current_path) matches Some(p) ==> !same_path(p, path@)
                ==> final(self).rotation == 0,
            r == ShowStep::Video <==> names_video(path@),
            final(self).is_video == (r == ShowStep::Video),
            final(self).is_loading == (r == ShowStep::Load || r is Preview),
            r matches ShowStep::Cached(t) ==> final(self).image_width == t.orig_width
                && final(self).image_height == t.orig_height && t.kind == PrefetchKind::Full,
            r matches ShowStep::Preview(t) ==> final(self).image_width == t.orig_width
                && final(self).image_height == t.orig_height && t.kind == PrefetchKind::Preview,
    {
        let same: bool = match &self.current_path {
            Some(p) => is_same_path(p, path),
            None => false,
        };
        if !same {
            self.rotation = 0;
        }
        self.generation = next_number(self.generation);
        self.view.restart();
        self.visible = true;
        self.is_video = is_video_path(path);
        self.is_loading = !self.is_video;
        self.user_interacted = false;
        self.current_path = Some(path.to_owned());
        if self.is_video {
            return ShowStep::Video;
        }
        match self.cache.get(path, self.rotation) {
            Some(cached) => {
                self.image_width = cached.orig_width;
                self.image_height = cached.orig_height;
                self.is_loading = cached.kind == PrefetchKind::Preview;
                if cached.kind == PrefetchKind::Full {
                    ShowStep::Cached(cached)
                } else {
                    ShowStep::Preview(cached)
                }
            },
            None => ShowStep::Load,
        }
    }

    /// Turns the picture by quarters and begins to show it again. Videos are not
    /// turned.
    pub fn rotate_current_relative(&mut self, delta_quarters: i8) -> (r: Option<ShowStep>)
        requires
            old(self).wf(),
        ensures
            final(self).wf(),
            r is Some <==> !old(self).is_video && old(self).current_path is Some,
            match r {
                Some(step) => is_shown(
                    MediaViewer {
                        rotation: ((old(self).rotation + delta_quarters) % 4) as u8,
                        ..*old(self)
                    },
                    path_text(old(self).current_path)->0,
                    *final(self),
                    step,
                ),
                None => *final(self) == *old(self),
            },
            r is Some ==> final(self).rotation == (old(self).rotation + delta_quarters) % 4
                && final(self).current_path is Some && path_text(final(self).current_path)
                == path_text(old(self).current_path),
    {
        if self.is_video {
            return None;
        }
        let path = match &self.current_path {
            Some(p) => p.clone(),
            None => return None,
        };
        let sum: i32 = self.rotation as i32 + delta_quarters as i32;
        let turned: i32 = if sum >= 0 {
            sum % 4
        } else {
            (sum + 400) % 4
        };
        assert(turned == (self.rotation + delta_quarters) % 4);
        self.rotation = turned as u8;
        Some(self.show(&path))
    }

    /// Whether a small picture is to be decoded before the picture itself: nothing
    /// is shown yet.
    pub fn wants_preview(step: ShowStep, thumbnail_shown: bool) -> (r: bool)
        ensures
            r == (step == ShowStep::Load && !thumbnail_shown),
    {
        match step {
            ShowStep::Load => !thumbnail_shown,
            _ => false,
        }
    }

    /// Whether a picture that was loaded is still wanted: it was loaded for what is
    /// shown, and a preview only while nothing better is there.
    pub open spec fn wants(self, generation: u64, is_preview: bool) -> bool {
        generation == self.generation && self.visible && (is_preview ==> self.is_loading)
    }

    /// Whether a picture that was loaded is still wanted.
    pub fn wants_result(&self, generation: u64, is_preview: bool) -> (r: bool)
        ensures
            r == self.wants(generation, is_preview),
    {
        generation == self.generation && self.visible && (!is_preview || self.is_loading)
    }

    /// Shows a picture that was loaded, and keeps its texture. Tells whether it is
    /// to be fitted to the window.
    pub fn handle_load_result(&mut self, result: LoadResult, texture: u64) -> (r: bool)
        requires
            old(self).wf(),
        ensures
            final(self).wf(),
            r == !old(self).user_interacted,
            final(self).image_width == result.orig_width,
            final(self).image_height == result.orig_height,
            final(self).is_loading == (old(self).is_loading && result.is_preview),
            final(self).current_path == old(self).current_path,
            final(self).rotation == old(self).rotation,
            final(self).is_video == old(self).is_video,
            final(self).visible == old(self).visible,
            final(self).user_interacted == old(self).user_interacted,
            final(self).is_favorite == old(self).is_favorite,
            final(self).generation == old(self).generation,
            final(self).prefetch_generation == old(self).prefetch_generation,
            final(self).view == old(self).view,
            final(self).cache.same_limits(old(self).cache),
            final(self).cache.kept() == match path_text(old(self).current_path) {
                Some(path) => inserted(
                    old(self).cache.kept(),
                    old(self).cache.limit(),
                    old(self).cache.capacity(),
                    viewer_key(path, old(self).rotation),
                    StoredTexture {
                        texture,
                        width: result.orig_width,
                        height: result.orig_height,
                        bytes: texture_bytes(result.width, result.height) as usize,
                        full: result.cache_kind == PrefetchKind::Full,
                    },
                ),
                None => old(self).cache.kept(),
            },
    {
        self.image_width = result.orig_width;
        self.image_height = result.orig_height;
        let bytes: usize = count_texture_bytes(result.width, result.height);
        if let Some(path) = &self.current_path {
            let entry = CachedTexture {
                texture,
                orig_width: result.orig_width,
                orig_height: result.orig_height,
                bytes,
                kind: result.cache_kind,
            };
            self.cache.insert(path, self.rotation, entry);
        }
        if !result.is_preview {
            self.is_loading = false;
        }
        !self.user_interacted
    }

    /// Keeps a texture that was made before it was asked for.
    pub fn handle_prefetch_result(
        &mut self,
        path: &str,
        texture: u64,
        size: (u32, u32),
        orig: (u32, u32),
        kind: PrefetchKind,
    )
        requires
            old(self).wf(),
        ensures
            final(self).wf(),
            final(self).same_view(*old(self)),
            final(self).generation == old(self).generation,
            final(self).prefetch_generation == old(self).prefetch_generation,
            final(self).view == old(self).view,
            final(self).cache.same_limits(old(self).cache),
            final(self).cache.kept() == inserted(
                old(self).cache.kept(),
                old(self).cache.limit(),
                old(self).cache.capacity(),
                viewer_key(path@, 0),
                StoredTexture {
                    texture,
                    width: orig.0,
                    height: orig.1,
                    bytes: texture_bytes(size.0, size.1) as usize,
                    full: kind == PrefetchKind::Full,
                },
            ),
    {
        let bytes: usize = count_texture_bytes(size.0, size.1);
        let entry = CachedTexture {
            texture,
            orig_width: orig.0,
            orig_height: orig.1,
            bytes,
            kind,
        };
        self.cache.insert(path, 0, entry);
    }

    /// Keeps the texture of a thumbnail as the preview of a picture.
    pub fn prime_preview_texture(
        &mut self,
        path: &str,
        texture: u64,
        size: (i32, i32),
        orig: (u32, u32),
    )
        requires
            old(self).wf(),
        ensures
            final(self).wf(),
            final(self).same_view(*old(self)),
            final(self).generation == old(self).generation,
            final(self).prefetch_generation == old(self).prefetch_generation,
            final(self).view == old(self).view,
            final(self).cache.same_limits(old(self).cache),
            final(self).cache.kept() == inserted(
                old(self).cache.kept(),
                old(self).cache.limit(),
                old(self).cache.capacity(),
                viewer_key(path@, 0),
                StoredTexture {
                    texture,
                    width: if orig.0 < 1 {
                        1
                    } else {
                        orig.0
                    },
                    height: if orig.1 < 1 {
                        1
                    } else {
                        orig.1
                    },
                    bytes: texture_bytes(
                        if size.0 < 1 {
                            1
                        } else {
                            size.0 as u32
                        },
                        if size.1 < 1 {
                            1
                        } else {
                            size.1 as u32
                        },
                    ) as usize,
                    full: false,
                },
            ),
    {
        let w: u32 = if size.0 < 1 {
            1
        } else {
            size.0 as u32
        };
        let h: u32 = if size.1 < 1 {
            1
        } else {
            size.1 as u32
        };
        let orig_w: u32 = if orig.0 < 1 {
            1
        } else {
            orig.0
        };
        let orig_h: u32 = if orig.1 < 1 {
            1
        } else {
            orig.1
        };
        self.handle_prefetch_result(path, texture, (w, h), (orig_w, orig_h), PrefetchKind::Preview);
    }

    /// What is to be decoded at its full size, if that is still wanted: what is
    /// shown, unless it is a video or is kept at its full size.
    pub fn full_decode_request(&mut self, generation: u64) -> (r: Option<(String, u8)>)
        requires
            old(self).wf(),
        ensures
            final(self).wf(),
            final(self).same_view(*old(self)),
            final(self).generation == old(self).generation,
            final(self).prefetch_generation == old(self).prefetch_generation,
            final(self).cache.same_limits(old(self).cache),
            final(self).cache.used() == old(self).cache.used(),
            ({
                let current = path_text(old(self).current_path);
                if generation != old(self).generation || !old(self).visible || old(self).is_video
                    || current is None {
                    r is None && final(self).cache.kept() == old(self).cache.kept()
                } else {
                    let key = viewer_key(current->0, old(self).rotation);
                    &&& final(self).cache.kept() == touched(old(self).cache.kept(), key)
                    &&& match value_of(old(self).cache.kept(), key) {
                        Some(e) if e.full => r is None,
                        _ => match r {
                            Some((path, turns)) => path@ == current->0 && turns
                                == old(self).rotation,
                            None => false,
                        },
                    }
                }
            }),
    {
        if generation != self.generation || !self.visible || self.is_video {
            return None;
        }
        let path = match &self.current_path {
            Some(p) => p.clone(),
            None => return None,
        };
        let rotation: u8 = self.rotation;
        if let Some(cached) = self.cache.get(&path, rotation) {
            if cached.kind == PrefetchKind::Full {
                return None;
            }
        }
        Some((path, rotation))
    }

    /// What is done, at the given attempt, about a picture that the viewer may have
    /// had no size for.
    pub fn layout_retry(&self, generation: u64, attempt: u8, width: i32, height: i32) -> (r:
        RetryStep)
        ensures
            r == if generation != self.generation || !self.visible {
                RetryStep::Stop
            } else if width > 0 && height > 0 && self.image_width > 0 && self.image_height > 0 {
                if self.user_interacted {
                    RetryStep::Place
                } else {
                    RetryStep::Fit
                }
            } else if attempt >= LAYOUT_ATTEMPTS {
                RetryStep::Stop
            } else {
                RetryStep::Again
            },
    {
        if generation != self.generation || !self.visible {
            RetryStep::Stop
        } else if width > 0 && height > 0 && self.image_width > 0 && self.image_height > 0 {
            if self.user_interacted {
                RetryStep::Place
            } else {
                RetryStep::Fit
            }
        } else if attempt >= LAYOUT_ATTEMPTS {
            RetryStep::Stop
        } else {
            RetryStep::Again
        }
    }

    /// What is done, at the given attempt, about a video that the viewer may have
    /// had no size for.
    pub fn video_layout_retry(&self, generation: u64, attempt: u8, width: i32, height: i32) -> (r:
        RetryStep)
        ensures
            r == if generation != self.generation || !self.visible || !self.is_video {
                RetryStep::Stop
            } else if width > 1 && height > 1 {
                RetryStep::Place
            } else if attempt >= VIDEO_LAYOUT_ATTEMPTS {
                RetryStep::Stop
            } else {
                RetryStep::Again
            },
    {
        if generation != self.generation || !self.visible || !self.is_video {
            RetryStep::Stop
        } else if width > 1 && height > 1 {
            RetryStep::Place
        } else if attempt >= VIDEO_LAYOUT_ATTEMPTS {
            RetryStep::Stop
        } else {
            RetryStep::Again
        }
    }

    /// The pictures of some that are worth decoding: no videos, and none that are
    /// kept already. Where there are any, earlier requests no longer count.
    pub fn prefetch(&mut self, items: Vec<PrefetchItem>) -> (r: Vec<PrefetchItem>)
        requires
            old(self).wf(),
        ensures
            final(self).wf(),
            final(self).same_view(*old(self)),
            final(self).generation == old(self).generation,
            final(self).cache.same_limits(old(self).cache),
            final(self).cache.used() == old(self).cache.used(),
            r@ == wanted(items@, old(self).cache.kept()).0,
            final(self).cache.kept() == wanted(items@, old(self).cache.kept()).1,
            final(self).prefetch_generation == if r@.len() > 0 {
                next(old(self).prefetch_generation)
            } else {
                old(self).prefetch_generation
            },
    {
        let mut left: Vec<PrefetchItem> = items;
        let mut out: Vec<PrefetchItem> = Vec::new();
        let ghost kept = self.cache.kept();
        assert(out@ + left@ =~= items@);
        while left.len() > 0
            invariant
                self.wf(),
                self.same_view(*old(self)),
                self.generation == old(self).generation,
                self.prefetch_generation == old(self).prefetch_generation,
                self.cache.same_limits(old(self).cache),
                self.cache.used() == old(self).cache.used(),
                wanted(items@, kept).0 == out@ + wanted(left@, self.cache.kept()).0,
                wanted(items@, kept).1 == wanted(left@, self.cache.kept()).1,
            decreases left@.len(),
        {
            let ghost before = left@;
            let ghost held = self.cache.kept();
            let ghost chosen = out@;
            let item = left.remove(0);
            assert(left@ =~= before.skip(1));
            if !is_video_path(&item.path) && !self.cache.contains(&item.path, 0) {
                out.push(item);
            }
            assert(chosen + wanted(before, held).0 =~= out@ + wanted(left@, self.cache.kept()).0);
        }
        assert(out@ + wanted(left@, self.cache.kept()).0 =~= out@);
        if out.len() > 0 {
            self.prefetch_generation = next_number(self.prefetch_generation);
        }
        out
    }

    /// Closes the viewer. Loads that are under way no longer count.
    pub fn close(&mut self)
        requires
            old(self).wf(),
        ensures
            final(self).wf(),
            final(self).generation == next(old(self).generation),
            final(self).prefetch_generation == old(self).prefetch_generation,
            !final(self).visible && !final(self).is_loading && !final(self).is_video,
            !final(self).is_favorite,
            final(self).rotation == 0,
            final(self).current_path == old(self).current_path,
            final(self).image_width == old(self).image_width,
            final(self).image_height == old(self).image_height,
            final(self).user_interacted == old(self).user_interacted,
            final(self).view == (PictureView {
                scroll: Double { bits: ZERO },
                ..old(self).view.forgotten()
            }),
            final(self).cache == old(self).cache,
    {
        self.generation = next_number(self.generation);
        self.view.scroll = Double { bits: ZERO };
        self.view.forget();
        self.visible = false;
        self.is_loading = false;
        self.is_video = false;
        self.is_favorite = false;
        self.rotation = 0;
    }

    /// Whether the viewer is open.
    pub fn is_visible(&self) -> (r: bool)
        ensures
            r == self.visible,
    {
        self.visible
    }

    /// Whether a video is shown.
    pub fn is_video_mode(&self) -> (r: bool)
        ensures
            r == self.is_video,
    {
        self.is_video
    }

    /// What is shown.
    pub fn current_path(&self) -> (r: Option<String>)
        ensures
            r == self.current_path,
    {
        match &self.current_path {
            Some(p) => Some(p.clone()),
            None => None,
        }
    }

    /// Notes whether what is shown is a favourite.
    pub fn set_favorite_state(&mut self, is_favorite: bool)
        ensures
            *final(self) == (MediaViewer { is_favorite, ..*old(self) }),
    {
        self.is_favorite = is_favorite;
    }
}

/// Whether a viewer begins to show a file with the given step. Another file than
/// before is not turned.
pub open spec fn is_shown(
    before: MediaViewer,
    path: Seq<char>,
    after: MediaViewer,
    r: ShowStep,
) -> bool {
    &&& path_text(after.current_path) == Some(path)
    &&& after.rotation == if (before.current_path matches Some(p) && same_path(p@, path)) {
        before.rotation
    } else {
        0
    }
    &&& after.generation == next(before.generation)
    &&& after.prefetch_generation == before.prefetch_generation
    &&& after.visible
    &&& !after.user_interacted
    &&& after.is_favorite == before.is_favorite
    &&& after.view == before.view.reset()
    &&& after.is_video == names_video(path)
    &&& after.cache.used() == before.cache.used()
    &&& after.cache.same_limits(before.cache)
    &&& ({
        let key = viewer_key(path, after.rotation);
        let kept = value_of(before.cache.kept(), key);
        if names_video(path) {
            &&& r == ShowStep::Video
            &&& !after.is_loading
            &&& after.cache.kept() == before.cache.kept()
            &&& after.image_width == before.image_width
            &&& after.image_height == before.image_height
        } else {
            &&& after.cache.kept() == touched(before.cache.kept(), key)
            &&& match kept {
                Some(e) => {
                    &&& r == if e.full {
                        ShowStep::Cached(texture_of(e))
                    } else {
                        ShowStep::Preview(texture_of(e))
                    }
                    &&& after.is_loading == !e.full
                    &&& after.image_width == e.width
                    &&& after.image_height == e.height
                },
                None => {
                    &&& r == ShowStep::Load
                    &&& after.is_loading
                    &&& after.image_width == before.image_width
                    &&& after.image_height == before.image_height
                },
            }
        }
    })
}

/// The items that are worth decoding, and the textures that are kept after each
/// was looked for.
pub open spec fn wanted(
    items: Seq<PrefetchItem>,
    kept: Seq<(Seq<char>, StoredTexture)>,
) -> (Seq<PrefetchItem>, Seq<(Seq<char>, StoredTexture)>)
    decreases items.len(),
{
    if items.len() == 0 {
        (seq![], kept)
    } else {
        let item = items[0];
        let key = viewer_key(item.path@, 0);
        if names_video(item.path@) {
            wanted(items.skip(1), kept)
        } else if holds(kept, key) {
            wanted(items.skip(1), touched(kept, key))
        } else {
            let rest = wanted(items.skip(1), touched(kept, key));
            (seq![item] + rest.0, rest.1)
        }
    }
}

/// A picture that was loaded for what was shown before no longer counts, until so
/// many files were shown that the numbers of generations start over.
pub proof fn earlier_loads_do_not_count(generation: u64, is_preview: bool, viewer: MediaViewer)
    requires
        viewer.generation == next(generation),
    ensures
        !viewer.wants(generation, is_preview),
{
}

/// Four quarter turns are none, and a turn back undoes a turn.
pub proof fn turns_add_up(rotation: u8, a: int, b: int)
    requires
        rotation < 4,
    ensures
        ((rotation + a) % 4 + b) % 4 == (rotation + a + b) % 4,
        (rotation + 4) % 4 == rotation as int,
        ((rotation + 1) % 4 - 1) % 4 == rotation as int,
{
}

/// A text in another case is the same text in lower case: the capital letters become the
/// small ones of the same name, and nothing else changes.
pub proof fn lower_case_is_of_the_same_letters(s: Seq<char>, i: int)
    requires
        0 <= i < s.len(),
    ensures
        ascii_lower(s).len() == s.len(),
        'A' <= s[i] <= 'Z' ==> ascii_lower(s)[i] as int - 'a' as int == s[i] as int - 'A' as int,
        !('A' <= s[i] <= 'Z') ==> ascii_lower(s)[i] == s[i],
{
}

/// Offloading is switched on by one of four words, however they are written and
/// whatever space is around them.
pub proof fn words_that_switch_on(s: Seq<char>)
    ensures
        ascii_lower(trimmed(s)) == "1"@ || ascii_lower(trimmed(s)) == "true"@ || ascii_lower(
            trimmed(s),
        ) == "yes"@ || ascii_lower(trimmed(s)) == "on"@ <==> is_on(s),
{
}

/// A setting that writes a positive number of megabytes is taken; without one, or with
/// zero, 256 are kept.
pub proof fn written_megabytes_are_taken(n: nat)
    requires
        n <= usize::MAX,
    ensures
        n > 0 ==> prefetch_megabytes(Some(decimal(n))) == n,
        n == 0 ==> prefetch_megabytes(Some(decimal(n))) == 256,
        prefetch_megabytes(None) == 256,
{
    crate::text::written_number_is_read_back(n, usize::MAX as nat);
}

proof fn lemma_lower_of_lower(s: Seq<char>)
    ensures
        ascii_lower(ascii_lower(s)) == ascii_lower(s),
{
    assert(ascii_lower(ascii_lower(s)) =~= ascii_lower(s));
}

/// The viewer plays just the files that the grid takes for videos, whichever case their
/// extension is written in.
pub proof fn viewer_plays_what_the_grid_calls_a_video(
    dir: Seq<char>,
    stem: Seq<char>,
    ext: Seq<char>,
)
    requires
        stem.len() > 0 && ext.len() > 0,
        !ext.contains('.'),
        !ext.contains('/') && !stem.contains('/'),
    ensures
        names_video(crate::paths::joined(dir, stem.push('.') + ext)) <==> (
        crate::models::media_item::type_of_extension(ascii_lower(ext)) == Some(
            crate::models::media_item::MediaType::Video,
        )),
{
    let name = stem.push('.') + ext;
    if name == seq!['.', '.'] {
        assert(name[1] == '.');
        assert(ext[0] == '.');
    }
    crate::paths::extension_follows_the_last_dot(dir, stem, ext);
    reveal_strlit("jpg");
    reveal_strlit("jpeg");
    reveal_strlit("png");
    reveal_strlit("webp");
    reveal_strlit("gif");
    reveal_strlit("bmp");
    reveal_strlit("tiff");
    reveal_strlit("tif");
    reveal_strlit("mp4");
    reveal_strlit("webm");
    reveal_strlit("mkv");
    reveal_strlit("avi");
    reveal_strlit("mov");
    let e = ascii_lower(ext);
    assert("jpg"@[0] == 'j' && "jpeg"@[0] == 'j' && "png"@[0] == 'p' && "webp"@[3] == 'p' && "gif"@[0]
        == 'g' && "bmp"@[0] == 'b' && "tiff"@[0] == 't' && "tif"@[0] == 't');
    assert("mp4"@[0] == 'm' && "webm"@[3] == 'm' && "webm"@[0] == 'w' && "mkv"@[0] == 'm'
        && "avi"@[0] == 'a' && "mov"@[0] == 'm');
    assert("mp4"@.len() == 3 && "webm"@.len() == 4 && "webp"@.len() == 4);
}

/// A picture is decoded for one and a half times the longer side of its room, to the
/// pixel above where that is half a pixel off, but for no less than 1024 pixels and no
/// more than 4096.
pub proof fn decoding_goes_by_the_longer_side(longer: int)
    requires
        longer >= 0,
    ensures
        1024 <= decode_target(longer) <= 4096,
        2048 <= 3 * longer <= 8192 ==> 3 * longer <= 2 * decode_target(longer) <= 3 * longer + 1,
        3 * longer < 2048 ==> decode_target(longer) == 1024,
        3 * longer > 8192 ==> decode_target(longer) == 4096,
{
}

/// A texture takes four bytes for each pixel.
pub proof fn textures_take_four_bytes_a_pixel(width: u32, height: u32)
    requires
        4 * (width * height) <= usize::MAX,
    ensures
        texture_bytes(width, height) == 4 * (width * height),
        texture_bytes(width, height) == texture_bytes(height, width),
{
    assert(4 * width * height == 4 * (width * height)) by (nonlinear_arith);
    assert(4 * height * width == 4 * (width * height)) by (nonlinear_arith);
}

proof fn lemma_fifty()
    ensures
        (Double { bits: PAN_STEP }).value() == 50 * pow2(1074),
        (Double { bits: PAN_STEP_BACK }).value() == -(50 * pow2(1074)),
        (Double { bits: ZERO }).value() == 0,
{
    crate::double::lemma_units_of(1027, 0x19_0000_0000_0000);
    lemma_pow2_adds(1027, 47);
    lemma2_to64_rest();
    let g = pow2(1027);
    assert(0x19_0000_0000_0000 * g == 50 * (g * 0x8000_0000_0000)) by (nonlinear_arith);
    assert(crate::double::units(0) == 0);
}

/// The keys that point somewhere move the picture there, by fifty pixels: to the right
/// and down by numbers above zero. The letters do what the arrows do. In a video, left
/// and right jump five seconds back and ahead instead.
pub proof fn keys_move_where_they_point()
    ensures
        viewer_command(Key::Char('h'), false) == viewer_command(Key::Left, false),
        viewer_command(Key::Char('h'), true) == viewer_command(Key::Left, true),
        viewer_command(Key::Char('l'), false) == viewer_command(Key::Right, false),
        viewer_command(Key::Char('l'), true) == viewer_command(Key::Right, true),
        viewer_command(Key::Char('k'), false) == viewer_command(Key::Up, false),
        viewer_command(Key::Char('j'), false) == viewer_command(Key::Down, false),
        command_act(viewer_command(Key::Right, false)) matches ViewerAct::PanBy(x, y) && x.value()
            == 50 * pow2(1074) && y.value() == 0,
        command_act(viewer_command(Key::Left, false)) matches ViewerAct::PanBy(x, y) && x.value()
            == -(50 * pow2(1074)) && y.value() == 0,
        command_act(viewer_command(Key::Down, false)) matches ViewerAct::PanBy(x, y) && x.value()
            == 0 && y.value() == 50 * pow2(1074),
        command_act(viewer_command(Key::Up, false)) matches ViewerAct::PanBy(x, y) && x.value()
            == 0 && y.value() == -(50 * pow2(1074)),
        command_act(viewer_command(Key::Right, true)) == ViewerAct::SeekBy(5_000_000),
        command_act(viewer_command(Key::Left, true)) == ViewerAct::SeekBy(-5_000_000i64),
{
    lemma_fifty();
}

/// A step of zooming in is by five quarters and one of zooming out by four fifths, so
/// that one undoes the other, to rounding. The keys of the number pad do what the others
/// do; the brackets turn a picture, the right one clockwise, and one undoes the other.
pub proof fn keys_zoom_and_turn(is_video: bool)
    ensures
        viewer_command(Key::KpAdd, is_video) == viewer_command(Key::Char('+'), is_video),
        viewer_command(Key::Char('='), is_video) == viewer_command(Key::Char('+'), is_video),
        viewer_command(Key::KpSubtract, is_video) == viewer_command(Key::Char('-'), is_video),
        viewer_command(Key::KpZero, is_video) == viewer_command(Key::Char('0'), is_video),
        viewer_command(Key::KpOne, is_video) == viewer_command(Key::Char('1'), is_video),
        viewer_command(Key::Char('q'), is_video) == viewer_command(Key::Escape, is_video),
        command_act(viewer_command(Key::Char('+'), is_video)) matches ViewerAct::ZoomBy(f) && 4
            * f.value() == 5 * pow2(1074),
        command_act(viewer_command(Key::Char('-'), is_video)) matches ViewerAct::ZoomBy(f) && 4
            * pow2(1074) <= 5 * f.value() <= 4 * pow2(1074) + 5 * pow2(1021),
        command_act(viewer_command(Key::Char('1'), is_video)) == ViewerAct::ScaleTo(
            (Double { bits: ONE }),
        ),
        command_act(viewer_command(Key::Char('0'), is_video)) == ViewerAct::Fit,
        command_act(viewer_command(Key::Escape, is_video)) == ViewerAct::Hide,
        !is_video ==> {
            &&& command_act(viewer_command(Key::Char(']'), is_video)) == ViewerAct::RotateBy(1i8)
            &&& command_act(viewer_command(Key::Char('['), is_video)) == ViewerAct::RotateBy(-1i8)
            &&& command_act(viewer_command(Key::Char(' '), is_video)) == ViewerAct::Nothing
        },
        is_video ==> {
            &&& command_act(viewer_command(Key::Char(']'), is_video)) == ViewerAct::Nothing
            &&& command_act(viewer_command(Key::Char('['), is_video)) == ViewerAct::Nothing
            &&& command_act(viewer_command(Key::Char(' '), is_video)) == ViewerAct::PlayPause
        },
{
    lemma2_to64_rest();
    crate::double::lemma_units_of(1022, 0x14_0000_0000_0000);
    lemma_pow2_adds(1022, 52);
    let g = pow2(1022);
    assert(4 * (0x14_0000_0000_0000 * g) == 5 * (g * 0x10_0000_0000_0000)) by (nonlinear_arith);
    crate::double::lemma_units_of(1021, 0x19_9999_9999_999a);
    lemma_pow2_adds(1021, 53);
    let f = pow2(1021);
    assert(4 * (f * 0x20_0000_0000_0000) <= 5 * (0x19_9999_9999_999a * f)) by (nonlinear_arith);
    assert(5 * (0x19_9999_9999_999a * f) <= 4 * (f * 0x20_0000_0000_0000) + 5 * f)
        by (nonlinear_arith);
}

/// Seconds are rounded to the nearest whole one, and none are below zero.
pub proof fn seconds_are_the_nearest(seconds: Double)
    requires
        !seconds.nan(),
        seconds.value() <= 0x7fff_ffff_ffff_ffff * pow2(1074),
    ensures
        seconds.value() >= 0 ==> -(pow2(1074) as int) <= 2 * (nearest_second(seconds) * pow2(1074))
            - 2 * seconds.value() <= pow2(1074),
        seconds.value() < 0 ==> nearest_second(seconds) == 0,
{
    let u = pow2(1074);
    lemma_pow2_pos(1074);
    let b = seconds.size();
    let n = (2 * b + u) / (2 * u);
    let rest = (2 * b + u) % (2 * u);
    assert(2 * b + u == n * (2 * u) + rest && rest < 2 * u) by (nonlinear_arith)
        requires
            n == (2 * b + u) / (2 * u),
            rest == (2 * b + u) % (2 * u),
            u > 0,
    ;
    assert(n * (2 * u) == 2 * (n * u)) by (nonlinear_arith);
    if !seconds.negative() && n > 0x7fff_ffff_ffff_ffff {
        assert(n * u >= 0x8000_0000_0000_0000 * u) by (nonlinear_arith)
            requires
                n >= 0x8000_0000_0000_0000,
        ;
    }
    if seconds.negative() && seconds.value() == 0 {
        let none = nearest_second(seconds);
        assert(none == 0);
        assert(none * u == 0) by (nonlinear_arith)
            requires
                none == 0,
        ;
    }
}

/// The name that is shown is the file name, wherever the file is.
pub proof fn file_name_is_shown(dir: Seq<char>, name: Seq<char>)
    requires
        crate::paths::is_name(name),
    ensures
        shown_name(Some(crate::paths::joined(dir, name))) == name,
        shown_name(None) == "Unknown"@,
{
    crate::paths::joined_path_ends_in_the_name(dir, name);
}

/// The number that a digit writes.
pub open spec fn digit_of(c: char) -> int {
    c as int - '0' as int
}

proof fn lemma_two_digits(n: nat)
    requires
        n < 100,
    ensures
        two_digits(n).len() == 2,
        '0' <= two_digits(n)[0] <= '9' && '0' <= two_digits(n)[1] <= '9',
        10 * digit_of(two_digits(n)[0]) + digit_of(two_digits(n)[1]) == n,
{
    if n >= 10 {
        assert(decimal(n / 10).len() == 1);
        assert(decimal(n) == decimal(n / 10).push(crate::text::digit_char(n % 10)));
    }
}

/// A time is read as the seconds that it was written for: minutes and seconds of two
/// digits each, below sixty, and hours before them once there is a whole one.
pub proof fn timestamp_is_read_back(seconds: nat)
    requires
        seconds < 360_000,
    ensures
        ({
            let t = timestamp(seconds);
            let at = |i: int| 10 * digit_of(t[i]) + digit_of(t[i + 1]);
            &&& seconds < 3600 ==> {
                &&& t.len() == 5 && t[2] == ':'
                &&& at(0) * 60 + at(3) == seconds
                &&& 0 <= at(3) < 60
            }
            &&& seconds >= 3600 ==> {
                &&& t.len() == 8 && t[2] == ':' && t[5] == ':'
                &&& at(0) * 3600 + at(3) * 60 + at(6) == seconds
                &&& 0 <= at(3) < 60 && 0 <= at(6) < 60
            }
        }),
{
    let h = seconds / 3600;
    let m = (seconds % 3600) / 60;
    let s = seconds % 60;
    lemma_two_digits(h);
    lemma_two_digits(m);
    lemma_two_digits(s);
    assert(h * 3600 + m * 60 + s == seconds);
}

/// What is said of a picture: its name, its width and then its height, where they are
/// known, by how many degrees it is turned, where it is, and its scale; and last whether
/// it is a preview.
pub proof fn picture_info_says(
    path: Option<Seq<char>>,
    w: u32,
    h: u32,
    quarters: u8,
    percent: u32,
    is_preview: bool,
)
    requires
        0 < quarters < 4,
    ensures
        picture_info(path, None, 0, percent, false) == "> "@ + shown_name(path) + " @ "@ + decimal(
            percent as nat,
        ) + "%"@,
        picture_info(path, Some((w, h)), 0, percent, false) == "> "@ + shown_name(path) + " ["@
            + decimal(w as nat) + "x"@ + decimal(h as nat) + "] @ "@ + decimal(percent as nat)
            + "%"@,
        picture_info(path, Some((w, h)), quarters, percent, false) == "> "@ + shown_name(path)
            + " ["@ + decimal(w as nat) + "x"@ + decimal(h as nat) + "] [rot:"@ + decimal(
            90 * quarters as nat,
        ) + "] @ "@ + decimal(percent as nat) + "%"@,
        picture_info(path, Some((w, h)), quarters, percent, true) == picture_info(
            path,
            Some((w, h)),
            quarters,
            percent,
            false,
        ) + " (preview)"@,
{
    reveal_strlit("> ");
    reveal_strlit(" [");
    reveal_strlit("x");
    reveal_strlit("] @ ");
    reveal_strlit(" @ ");
    reveal_strlit("%");
    reveal_strlit("] [rot:");
    reveal_strlit(" [rot:");
    let name = "> "@ + shown_name(path);
    let nothing = Seq::<char>::empty();
    let tail = " @ "@ + decimal(percent as nat) + "%"@;
    assert(name + nothing + nothing + " @ "@ + decimal(percent as nat) + seq!['%'] + nothing
        =~= "> "@ + shown_name(path) + " @ "@ + decimal(percent as nat) + "%"@);
    let dims = " ["@ + decimal(w as nat) + seq!['x'] + decimal(h as nat) + seq![']'];
    assert(name + dims + nothing + " @ "@ + decimal(percent as nat) + seq!['%'] + nothing =~= "> "@
        + shown_name(path) + " ["@ + decimal(w as nat) + "x"@ + decimal(h as nat) + "] @ "@
        + decimal(percent as nat) + "%"@);
    let turned = " [rot:"@ + decimal(90 * quarters as nat) + seq![']'];
    assert(name + dims + turned + " @ "@ + decimal(percent as nat) + seq!['%'] + nothing =~= "> "@
        + shown_name(path) + " ["@ + decimal(w as nat) + "x"@ + decimal(h as nat) + "] [rot:"@
        + decimal(90 * quarters as nat) + "] @ "@ + decimal(percent as nat) + "%"@);
    assert(name + dims + turned + " @ "@ + decimal(percent as nat) + seq!['%'] + nothing =~= name
        + dims + turned + " @ "@ + decimal(percent as nat) + seq!['%']);
}

/// What is said of a video: its name, and where it is out of how long it is.
pub proof fn video_info_says(path: Option<Seq<char>>, position: nat, duration: nat)
    ensures
        video_info(path, position, None) == "> "@ + shown_name(path) + " ["@ + timestamp(position)
            + "]"@,
        video_info(path, position, Some(duration)) == "> "@ + shown_name(path) + " ["@ + timestamp(
            position,
        ) + " / "@ + timestamp(duration) + "]"@,
{
    reveal_strlit("]");
    assert("]"@ =~= seq![']']);
}

/// A picture that was loaded for what is shown now counts as long as the viewer is open;
/// a preview only while the picture itself is not there. With the viewer closed nothing
/// counts.
pub proof fn current_loads_count(viewer: MediaViewer, generation: u64)
    ensures
        viewer.visible ==> viewer.wants(viewer.generation, false),
        viewer.visible && viewer.is_loading ==> viewer.wants(viewer.generation, true),
        !viewer.is_loading ==> !viewer.wants(generation, true),
        !viewer.visible ==> !viewer.wants(generation, false),
        generation != viewer.generation ==> !viewer.wants(generation, false) && !viewer.wants(
            generation,
            true,
        ),
        next(generation) != generation,
        generation < u64::MAX ==> next(generation) == generation + 1,
{
}

proof fn lemma_touching_keeps(
    kept: Seq<(Seq<char>, StoredTexture)>,
    key: Seq<char>,
    other: Seq<char>,
)
    ensures
        holds(touched(kept, key), other) == holds(kept, other),
{
    if holds(kept, key) {
        let p = crate::texture_lru::place(kept, key);
        let after = touched(kept, key);
        assert(after =~= seq![kept[p]] + kept.remove(p));
        if holds(kept, other) {
            let i = choose|i: int| 0 <= i < kept.len() && (#[trigger] kept[i]).0 == other;
            let j = if i == p {
                0
            } else if i < p {
                i + 1
            } else {
                i
            };
            assert(after[j] == kept[i]);
        }
        if holds(after, other) {
            let j = choose|j: int| 0 <= j < after.len() && (#[trigger] after[j]).0 == other;
            let i = if j == 0 {
                p
            } else if j <= p {
                j - 1
            } else {
                j
            };
            assert(kept[i] == after[j]);
        }
    }
}

/// Of the items that lie ahead, just those are decoded that are no videos and are not
/// kept already, in their order.
pub proof fn wanted_items_are_those_not_kept(
    items: Seq<PrefetchItem>,
    kept: Seq<(Seq<char>, StoredTexture)>,
)
    ensures
        wanted(items, kept).0 == items.filter(
            |item: PrefetchItem|
                !names_video(item.path@) && !holds(kept, viewer_key(item.path@, 0)),
        ),
    decreases items.len(),
{
    let keep = |item: PrefetchItem|
        !names_video(item.path@) && !holds(kept, viewer_key(item.path@, 0));
    if items.len() == 0 {
        reveal(Seq::filter);
        assert(items.filter(keep) =~= Seq::<PrefetchItem>::empty());
        assert(wanted(items, kept).0 =~= Seq::<PrefetchItem>::empty());
    } else {
        let item = items[0];
        let rest = items.skip(1);
        let key = viewer_key(item.path@, 0);
        let after = if names_video(item.path@) {
            kept
        } else {
            touched(kept, key)
        };
        wanted_items_are_those_not_kept(rest, after);
        let again = |other: PrefetchItem|
            !names_video(other.path@) && !holds(after, viewer_key(other.path@, 0));
        assert forall|other: PrefetchItem| #[trigger] again(other) == keep(other) by {
            if !names_video(item.path@) {
                lemma_touching_keeps(kept, key, viewer_key(other.path@, 0));
            }
        }
        assert(again =~= keep);
        assert(items =~= seq![item] + rest);
        Seq::filter_distributes_over_add(seq![item], rest, keep);
        reveal(Seq::filter);
        assert(seq![item].drop_last() =~= Seq::<PrefetchItem>::empty());
        assert(Seq::<PrefetchItem>::empty().filter(keep) =~= Seq::<PrefetchItem>::empty());
        assert(wanted(items, kept).0 =~= items.filter(keep));
    }
}

/// Sixty pixels at the top are left free. The viewer looks thirty times for a size to fit a
/// picture to and sixty times for one to fit a video to, waits a hundred and forty
/// milliseconds before it decodes in full, and keeps 256 megabytes of textures.
pub proof fn limits_of_the_viewer()
    ensures
        VIEWPORT_TOP_INSET == 60,
        LAYOUT_ATTEMPTS == 30,
        VIDEO_LAYOUT_ATTEMPTS == 60,
        FULL_DECODE_IDLE_DELAY_MS == 140,
        DEFAULT_PREFETCH_MB == 256,
{
}

/// A picture is shown from the textures that are kept where one is kept for its path and its
/// turn, and loaded where none is; a video is played.
pub proof fn kept_picture_is_shown(before: MediaViewer, path: Seq<char>, after: MediaViewer, r: ShowStep)
    requires
        is_shown(before, path, after, r),
    ensures
        names_video(path) ==> r == ShowStep::Video,
        !names_video(path) ==> {
            let key = viewer_key(path, after.rotation);
            &&& r == ShowStep::Load <==> !holds(before.cache.kept(), key)
            &&& value_of(before.cache.kept(), key) matches Some(e) ==> {
                &&& e.full ==> (r matches ShowStep::Cached(t) && t.texture == e.texture)
                &&& !e.full ==> (r matches ShowStep::Preview(t) && t.texture == e.texture)
                &&& after.image_width == e.width && after.image_height == e.height
                &&& after.is_loading == !e.full
            }
        },
        path_text(after.current_path) == Some(path),
{
}

} // verus!
