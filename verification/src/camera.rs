//! Camera capture decisions: whether capture is permitted, which device is meant,
//! and which of its formats to use.

use crate::permission::Authorization;
use vstd::prelude::*;

verus! {

/// Why a camera cannot be opened.
#[derive(Debug, Clone, Copy, PartialEq, Eq, Structural)]
pub enum CameraError {
    /// The user has not been asked for camera access.
    AccessNotGranted,
    /// The user denied camera access.
    AccessDenied,
    /// Policy restricts camera access.
    AccessRestricted,
    /// No device has the wanted name.
    DeviceNotFound,
}

/// Whether this process may capture from a camera, given what AVFoundation, which
/// distinguishes all four states, reports. If it cannot be asked, nothing has been
/// determined.
pub fn authorization(reported: Option<Authorization>) -> (res: Authorization)
    ensures
        res == match reported {
            Some(status) => status,
            None => Authorization::NotDetermined,
        },
{
    match reported {
        Some(status) => status,
        None => Authorization::NotDetermined,
    }
}

/// Whether asking the user for access can change anything: macOS asks once and
/// remembers the answer.
pub fn should_prompt(status: Authorization) -> (res: bool)
    ensures
        res == (status == Authorization::NotDetermined),
{
    status == Authorization::NotDetermined
}

/// Whether a camera may be opened.
pub fn check_access(status: Authorization) -> (res: Result<(), CameraError>)
    ensures
        res == match status {
            Authorization::Authorized => Ok::<(), CameraError>(()),
            Authorization::NotDetermined => Err(CameraError::AccessNotGranted),
            Authorization::Denied => Err(CameraError::AccessDenied),
            Authorization::Restricted => Err(CameraError::AccessRestricted),
        },
{
    match status {
        Authorization::Authorized => Ok(()),
        Authorization::NotDetermined => Err(CameraError::AccessNotGranted),
        Authorization::Denied => Err(CameraError::AccessDenied),
        Authorization::Restricted => Err(CameraError::AccessRestricted),
    }
}

/// Whether `part` occurs in `whole` at position `at`.
pub open spec fn occurs_at(whole: Seq<char>, part: Seq<char>, at: int) -> bool {
    0 <= at && at + part.len() <= whole.len() && whole.subrange(at, at + part.len()) == part
}

/// Whether `part` occurs in `whole`.
pub open spec fn occurs_in(whole: Seq<char>, part: Seq<char>) -> bool {
    exists|at: int| #[trigger] occurs_at(whole, part, at)
}

/// `str::contains` with a string as the pattern: whether `part` is a sub-slice of
/// `whole`.
#[verifier::external_body]
fn contains(whole: &str, part: &str) -> (res: bool)
    ensures
        res == occurs_in(whole@, part@),
{
    whole.contains(part)
}

/// Which capture device is meant.
#[derive(Debug, Clone, Copy, PartialEq, Eq, Structural)]
pub enum DeviceChoice {
    /// The system default device.
    SystemDefault,
    /// The device at this index.
    Listed(usize),
}

/// Find the capture device by (localized) name among `names`, or the system default
/// video device. The first device whose name contains `device_name` is meant.
pub fn find_device(device_name: Option<&str>, names: &[String]) -> (res: Result<
    DeviceChoice,
    CameraError,
>)
    ensures
        match device_name {
            None => res == Ok::<DeviceChoice, CameraError>(DeviceChoice::SystemDefault),
            Some(name) => match res {
                Ok(DeviceChoice::Listed(i)) => {
                    &&& i < names@.len()
                    &&& occurs_in(names@[i as int]@, name@)
                    &&& forall|k: int| 0 <= k < i ==> !occurs_in((#[trigger] names@[k])@, name@)
                },
                Ok(DeviceChoice::SystemDefault) => false,
                Err(e) => {
                    &&& e == CameraError::DeviceNotFound
                    &&& forall|k: int|
                        0 <= k < names@.len() ==> !occurs_in((#[trigger] names@[k])@, name@)
                },
            },
        },
{
    match device_name {
        None => Ok(DeviceChoice::SystemDefault),
        Some(name) => {
            let mut i: usize = 0;
            while i < names.len()
                invariant
                    device_name == Some(name),
                    i <= names@.len(),
                    forall|k: int| 0 <= k < i ==> !occurs_in((#[trigger] names@[k])@, name@),
                decreases names@.len() - i,
            {
                if contains(names[i].as_str(), name) {
                    return Ok(DeviceChoice::Listed(i));
                }
                i = i + 1;
            }
            Err(CameraError::DeviceNotFound)
        },
    }
}

/// What matters of a capture format of a device when one is selected.
#[derive(Debug, Clone, Copy, PartialEq, Eq, Structural)]
pub struct FormatCandidate {
    /// Format width in pixels.
    pub width: i32,
    /// Format height in pixels.
    pub height: i32,
    /// Whether the format reaches the requested frame rate.
    pub rate_ok: bool,
    /// Whether the format has the active format's pixel subtype.
    pub subtype_ok: bool,
}

impl FormatCandidate {
    /// Whether the format covers the requested size.
    pub open spec fn covers(self, width: i32, height: i32) -> bool {
        self.width >= width && self.height >= height
    }

    /// How many pixels the format has.
    pub open spec fn area(self) -> int {
        self.width * self.height
    }

    /// Whether the format is to be preferred to `other`: rate capability ranks
    /// first, then the smaller area, then the pixel subtype of the active format.
    pub open spec fn better_than(self, other: FormatCandidate) -> bool {
        if self.rate_ok != other.rate_ok {
            self.rate_ok
        } else if self.area() != other.area() {
            self.area() < other.area()
        } else {
            self.subtype_ok && !other.subtype_ok
        }
    }
}

/// Whether `a` is to be preferred to `b`.
fn is_better(a: &FormatCandidate, b: &FormatCandidate) -> (res: bool)
    ensures
        res == a.better_than(*b),
{
    proof {
        lemma_area_fits(*a);
        lemma_area_fits(*b);
    }
    let area_a: i64 = a.width as i64 * a.height as i64;
    let area_b: i64 = b.width as i64 * b.height as i64;
    if a.rate_ok != b.rate_ok {
        a.rate_ok
    } else if area_a != area_b {
        area_a < area_b
    } else {
        a.subtype_ok && !b.subtype_ok
    }
}

proof fn lemma_area_fits(c: FormatCandidate)
    ensures
        i64::MIN <= c.area() <= i64::MAX,
{
    let w = c.width as int;
    let h = c.height as int;
    assert(-0x4000_0000_0000_0000 <= w * h <= 0x4000_0000_0000_0000) by (nonlinear_arith)
        requires
            -0x8000_0000 <= w <= 0x8000_0000,
            -0x8000_0000 <= h <= 0x8000_0000,
    ;
}

/// Whether format `i` is the first of the best ones among the first `n` that cover
/// the requested size.
pub open spec fn is_best(
    formats: Seq<FormatCandidate>,
    n: int,
    width: i32,
    height: i32,
    i: int,
) -> bool {
    &&& 0 <= i < n
    &&& formats[i].covers(width, height)
    &&& forall|k: int|
        0 <= k < n && (#[trigger] formats[k]).covers(width, height) ==> !formats[k].better_than(
            formats[i],
        )
    &&& forall|k: int|
        0 <= k < i && (#[trigger] formats[k]).covers(width, height) ==> formats[i].better_than(
            formats[k],
        )
}

/// The `i32` with the bits of `x`.
pub open spec fn as_i32(x: u32) -> i32 {
    if x < 0x8000_0000 {
        x as i32
    } else {
        (x - 0x1_0000_0000) as i32
    }
}

fn to_i32(x: u32) -> (res: i32)
    ensures
        res == as_i32(x),
{
    let res: i64 = if x < 0x8000_0000 {
        x as i64
    } else {
        x as i64 - 0x1_0000_0000
    };
    res as i32
}

/// Pick the device format that best matches the requested size and frame rate.
///
/// Rate capability ranks first: a rate-capable format wins even at larger
/// dimensions, because the output scaler delivers the configured size from any
/// covering format. Ties break on the smallest covering area, then on matching the
/// active format's pixel subtype, which the running session is already configured
/// for. `None` when no format covers the resolution.
pub fn select_format(formats: &[FormatCandidate], width: u32, height: u32) -> (res: Option<usize>)
    ensures
        match res {
            Some(i) => is_best(
                formats@,
                formats@.len() as int,
                as_i32(width),
                as_i32(height),
                i as int,
            ),
            None => forall|k: int|
                0 <= k < formats@.len() ==> !(#[trigger] formats@[k]).covers(
                    as_i32(width),
                    as_i32(height),
                ),
        },
{
    let req_w: i32 = to_i32(width);
    let req_h: i32 = to_i32(height);
    let mut best: Option<usize> = None;
    let mut i: usize = 0;
    while i < formats.len()
        invariant
            i <= formats@.len(),
            match best {
                Some(b) => is_best(formats@, i as int, req_w, req_h, b as int),
                None => forall|k: int|
                    0 <= k < i ==> !(#[trigger] formats@[k]).covers(req_w, req_h),
            },
        decreases formats@.len() - i,
    {
        let format: FormatCandidate = formats[i];
        if format.width >= req_w && format.height >= req_h {
            let better: bool = match best {
                Some(b) => is_better(&format, &formats[b]),
                None => true,
            };
            if better {
                best = Some(i);
            }
        }
        i = i + 1;
    }
    best
}

/// What to do about the device's format and frame rate.
#[derive(Debug, Clone, Copy, PartialEq, Eq, Structural)]
pub enum FormatPlan {
    /// Activate this format, and pin the requested rate or, if that is lower, the
    /// highest one that the format supports.
    Activate(usize),
    /// Leave the active format alone, and pin the highest rate of this format, which
    /// is the best there is.
    PinOnly(usize),
    /// No format covers the size: leave the active format alone, and pin the
    /// requested rate.
    KeepActive,
}

/// Decide about the device's format and frame rate.
///
/// The active format is overridden only when doing so gains the configured rate:
/// forcing a same-rate format can stop frame delivery entirely.
pub fn plan_format(formats: &[FormatCandidate], width: u32, height: u32) -> (res: FormatPlan)
    ensures
        match res {
            FormatPlan::Activate(i) => {
                &&& formats@[i as int].rate_ok
                &&& is_best(
                    formats@,
                    formats@.len() as int,
                    as_i32(width),
                    as_i32(height),
                    i as int,
                )
            },
            FormatPlan::PinOnly(i) => {
                &&& !formats@[i as int].rate_ok
                &&& is_best(
                    formats@,
                    formats@.len() as int,
                    as_i32(width),
                    as_i32(height),
                    i as int,
                )
            },
            FormatPlan::KeepActive => forall|k: int|
                0 <= k < formats@.len() ==> !(#[trigger] formats@[k]).covers(
                    as_i32(width),
                    as_i32(height),
                ),
        },
{
    match select_format(formats, width, height) {
        Some(i) => if formats[i].rate_ok {
            FormatPlan::Activate(i)
        } else {
            FormatPlan::PinOnly(i)
        },
        None => FormatPlan::KeepActive,
    }
}

/// If a format covers the size and reaches the rate, such a one is selected,
/// however large it is.
pub proof fn law_rate_capability_ranks_first(
    formats: Seq<FormatCandidate>,
    width: i32,
    height: i32,
    i: int,
    capable: int,
)
    requires
        is_best(formats, formats.len() as int, width, height, i),
        0 <= capable < formats.len(),
        formats[capable].covers(width, height),
        formats[capable].rate_ok,
    ensures
        formats[i].rate_ok,
        formats[i].area() <= formats[capable].area(),
{
    assert(!formats[capable].better_than(formats[i]));
}

/// There is at most one format to select.
pub proof fn law_selection_is_unique(
    formats: Seq<FormatCandidate>,
    width: i32,
    height: i32,
    i: int,
    j: int,
)
    requires
        is_best(formats, formats.len() as int, width, height, i),
        is_best(formats, formats.len() as int, width, height, j),
    ensures
        i == j,
{
    if i < j {
        assert(formats[j].better_than(formats[i]));
    } else if j < i {
        assert(formats[i].better_than(formats[j]));
    }
}

/// If a format has exactly the requested size and reaches the rate, a format of exactly
/// that size that reaches the rate is selected.
pub proof fn law_exact_format_is_selected(
    formats: Seq<FormatCandidate>,
    width: i32,
    height: i32,
    i: int,
    exact: int,
)
    requires
        is_best(formats, formats.len() as int, width, height, i),
        0 < width,
        0 < height,
        0 <= exact < formats.len(),
        formats[exact].width == width,
        formats[exact].height == height,
        formats[exact].rate_ok,
    ensures
        formats[i].width == width,
        formats[i].height == height,
        formats[i].rate_ok,
        formats[exact].subtype_ok ==> formats[i].subtype_ok,
{
    assert(!formats[exact].better_than(formats[i]));
    let w = formats[i].width as int;
    let h = formats[i].height as int;
    assert(w * h <= width * height);
    assert(w == width && h == height) by (nonlinear_arith)
        requires
            0 < width <= w,
            0 < height <= h,
            w * h <= width * height,
    ;
}

/// The selected format is at least as large as requested, and no smaller one would have
/// done: a covering format with fewer pixels is passed over only if it misses the rate
/// that the selected one reaches. Among equals, one with the active format's pixel
/// subtype is selected, and the first one.
pub proof fn law_selected_format_is_the_smallest(
    formats: Seq<FormatCandidate>,
    width: i32,
    height: i32,
    i: int,
    other: int,
)
    requires
        is_best(formats, formats.len() as int, width, height, i),
        0 <= other < formats.len(),
        formats[other].width >= width,
        formats[other].height >= height,
    ensures
        formats[i].width >= width,
        formats[i].height >= height,
        formats[other].width * formats[other].height < formats[i].width * formats[i].height
            ==> formats[i].rate_ok && !formats[other].rate_ok,
        formats[other].width * formats[other].height == formats[i].width * formats[i].height
            && formats[other].rate_ok == formats[i].rate_ok && formats[other].subtype_ok
            ==> formats[i].subtype_ok,
        formats[other] == formats[i] ==> i <= other,
{
    assert(formats[other].covers(width, height));
    assert(!formats[other].better_than(formats[i]));
    if other < i {
        assert(formats[i].better_than(formats[other]));
    }
}

} // verus!
