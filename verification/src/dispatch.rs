//! The single entry point: an operation name selects one of the four kernels.

use vstd::prelude::*;
use crate::blur::{blur_outcome, box_blur_impl};
use crate::diffusion::{diffusion_outcome, floyd_steinberg_impl};
use crate::fill::{fill_outcome, flood_fill_impl, start_inside};
use crate::ordered::{bayer_dither_impl, ordered_outcome, supported_size};
use crate::outcome::ProcessResult;
use crate::text::{joined, same_text};

verus! {

/// Whether `name` is one of the four operation names, letter for letter.
pub open spec fn known_operation(name: Seq<char>) -> bool {
    ||| name == "floyd_steinberg"@
    ||| name == "bayer_dither"@
    ||| name == "flood_fill"@
    ||| name == "box_blur"@
}

/// Whether the kernel that `name` selects looks at the picture for these
/// parameters. No kernel does for a name that is none of the four.
pub open spec fn reads_picture(name: Seq<char>, w: int, h: int, params: Seq<u64>) -> bool {
    exists|op: Operation| name == #[trigger] op.name() && op.reads_picture(w, h, params)
}

/// A name that is none of the four selects no kernel, so nothing looks at
/// the picture.
pub proof fn lemma_unknown_reads_nothing(name: Seq<char>, w: int, h: int, params: Seq<u64>)
    requires
        !known_operation(name),
    ensures
        !reads_picture(name, w, h, params),
{
}

/// The message for a name that is none of the four.
pub open spec fn unknown_operation_message(name: Seq<char>) -> Seq<char> {
    "Unknown operation: "@ + name
}

/// The four operation names differ from one another.
pub proof fn lemma_names_differ()
    ensures
        "floyd_steinberg"@ != "bayer_dither"@,
        "floyd_steinberg"@ != "flood_fill"@,
        "floyd_steinberg"@ != "box_blur"@,
        "bayer_dither"@ != "flood_fill"@,
        "bayer_dither"@ != "box_blur"@,
        "flood_fill"@ != "box_blur"@,
{
    reveal_strlit("floyd_steinberg");
    reveal_strlit("bayer_dither");
    reveal_strlit("flood_fill");
    reveal_strlit("box_blur");
    assert("floyd_steinberg"@.len() == 15);
    assert("bayer_dither"@.len() == 12);
    assert("flood_fill"@.len() == 10);
    assert("box_blur"@.len() == 8);
}

/// The four kernels.
#[derive(Clone, Copy, Debug)]
pub enum Operation {
    /// Error-diffusion dithering.
    FloydSteinberg,
    /// Ordered dithering against a threshold matrix.
    BayerDither,
    /// Flood fill of a 4-connected region.
    FloodFill,
    /// Box blur.
    BoxBlur,
}

impl Operation {
    /// The name that selects this kernel.
    pub open spec fn name(self) -> Seq<char> {
        match self {
            Operation::FloydSteinberg => "floyd_steinberg"@,
            Operation::BayerDither => "bayer_dither"@,
            Operation::FloodFill => "flood_fill"@,
            Operation::BoxBlur => "box_blur"@,
        }
    }

    /// What this kernel returns for a picture and a parameter list.
    pub open spec fn outcome(self, p: Seq<u8>, w: int, h: int, params: Seq<u64>, r: ProcessResult) -> bool {
        match self {
            Operation::FloydSteinberg => diffusion_outcome(p, w, h, params, r),
            Operation::BayerDither => ordered_outcome(p, w, h, params, r),
            Operation::FloodFill => fill_outcome(p, w, h, params, r),
            Operation::BoxBlur => blur_outcome(p, w, h, params, r),
        }
    }

    /// Whether this kernel looks at the picture for these parameters: it does
    /// unless the parameters alone make it fail.
    pub open spec fn reads_picture(self, w: int, h: int, params: Seq<u64>) -> bool {
        match self {
            Operation::FloydSteinberg => params.len() > 0,
            Operation::BayerDither => params.len() > 0 && supported_size(params[0]),
            Operation::FloodFill => start_inside(w, h, params),
            Operation::BoxBlur => params.len() > 0,
        }
    }

    /// Tells whether this kernel looks at the picture for these parameters.
    pub fn needs_picture(self, width: u32, height: u32, params: &[u64]) -> (r: bool)
        ensures
            r == self.reads_picture(width as int, height as int, params@),
    {
        match self {
            Operation::FloydSteinberg => params.len() > 0,
            Operation::BayerDither => params.len() > 0 && (params[0] == 2 || params[0] == 4 || params[0] == 8),
            Operation::FloodFill => params.len() >= 3 && params[0] < width as u64 && params[1] < height as u64,
            Operation::BoxBlur => params.len() > 0,
        }
    }

    /// The kernel that `name` selects, if it is one of the four names.
    pub fn parse(name: &str) -> (r: Option<Operation>)
        ensures
            match r {
                Some(op) => name@ == op.name(),
                None => !known_operation(name@),
            },
    {
        if same_text(name, "floyd_steinberg") {
            Some(Operation::FloydSteinberg)
        } else if same_text(name, "bayer_dither") {
            Some(Operation::BayerDither)
        } else if same_text(name, "flood_fill") {
            Some(Operation::FloodFill)
        } else if same_text(name, "box_blur") {
            Some(Operation::BoxBlur)
        } else {
            None
        }
    }

    /// Runs this kernel on a picture.
    pub fn apply(self, pixels: &[u8], width: u32, height: u32, params: &[u64]) -> (r: ProcessResult)
        requires
            self.reads_picture(width as int, height as int, params@) ==> pixels@.len() == width as nat
                * height as nat,
        ensures
            self.outcome(pixels@, width as int, height as int, params@, r),
            r.well_formed(),
    {
        match self {
            Operation::FloydSteinberg => floyd_steinberg_impl(pixels, width, height, params),
            Operation::BayerDither => bayer_dither_impl(pixels, width, height, params),
            Operation::FloodFill => flood_fill_impl(pixels, width, height, params),
            Operation::BoxBlur => box_blur_impl(pixels, width, height, params),
        }
    }
}

/// Tells whether a call of `process_safe` with these arguments looks at the
/// picture, and so needs a buffer of `width * height` samples.
pub fn needs_picture(operation: &str, width: u32, height: u32, params: &[u64]) -> (r: bool)
    ensures
        r == reads_picture(operation@, width as int, height as int, params@),
{
    proof {
        lemma_names_differ();
    }
    match Operation::parse(operation) {
        Some(op) => {
            let r = op.needs_picture(width, height, params);
            assert(r == reads_picture(operation@, width as int, height as int, params@)) by {
                if r {
                    assert(operation@ == op.name() && op.reads_picture(width as int, height as int, params@));
                }
            }
            r
        },
        None => false,
    }
}

/// Runs the kernel that `operation` names on a picture.
///
/// A name that is none of the four gives a failure that quotes it, whatever
/// the other arguments are. A known name gives what its kernel returns for
/// the picture and the parameters; the buffer has to hold the whole picture
/// unless the parameters alone make the kernel fail.
pub fn process_safe(operation: &str, pixels: &[u8], width: u32, height: u32, params: &[u64]) -> (r:
    ProcessResult)
    requires
        reads_picture(operation@, width as int, height as int, params@) ==> pixels@.len() == width as nat
            * height as nat,
    ensures
        r.well_formed(),
        !known_operation(operation@) ==> !r.succeeded() && r.message() == unknown_operation_message(
            operation@,
        ) && r.bytes() == Seq::<u8>::empty(),
        operation@ == "floyd_steinberg"@ ==> diffusion_outcome(pixels@, width as int, height as int, params@, r),
        operation@ == "bayer_dither"@ ==> ordered_outcome(pixels@, width as int, height as int, params@, r),
        operation@ == "flood_fill"@ ==> fill_outcome(pixels@, width as int, height as int, params@, r),
        operation@ == "box_blur"@ ==> blur_outcome(pixels@, width as int, height as int, params@, r),
{
    proof {
        lemma_names_differ();
    }
    match Operation::parse(operation) {
        Some(op) => {
            assert(op.reads_picture(width as int, height as int, params@) ==> reads_picture(
                operation@,
                width as int,
                height as int,
                params@,
            ));
            op.apply(pixels, width, height, params)
        },
        None => ProcessResult::fail(joined("Unknown operation: ", operation)),
    }
}

} // verus!
