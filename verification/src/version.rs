//! Protocol versions: which one the kernel and a module speak to each other.
use crate::text;
use vstd::prelude::*;
use vstd::string::*;

verus! {

/// A range of protocol versions, both ends included. It is never empty.
#[derive(Debug, Clone, Copy, PartialEq, Eq, Structural)]
pub struct VersionRange {
    min: u32,
    max: u32,
}

impl VersionRange {
    pub closed spec fn low(self) -> u32 {
        self.min
    }

    pub closed spec fn high(self) -> u32 {
        self.max
    }

    #[verifier::type_invariant]
    closed spec fn not_empty(self) -> bool {
        self.min <= self.max
    }

    /// The range from `min` to `max`.
    pub closed spec fn from_to(min: u32, max: u32) -> VersionRange {
        VersionRange { min, max }
    }

    /// Whether a version lies in the range.
    pub open spec fn has(self, version: int) -> bool {
        self.low() <= version <= self.high()
    }

    /// The versions from `min` to `max`, unless there are none.
    pub fn new(min: u32, max: u32) -> (r: Option<VersionRange>)
        ensures
            match r {
                Some(range) => min <= max && range.low() == min && range.high() == max && range
                    == VersionRange::from_to(min, max),
                None => min > max,
            },
    {
        if min <= max {
            Some(VersionRange { min, max })
        } else {
            None
        }
    }

    pub fn min(&self) -> (r: u32)
        ensures
            r == self.low(),
            r <= self.high(),
    {
        proof {
            use_type_invariant(self);
        }
        self.min
    }

    pub fn max(&self) -> (r: u32)
        ensures
            r == self.high(),
            self.low() <= r,
    {
        proof {
            use_type_invariant(self);
        }
        self.max
    }
}

/// A range is made of its ends.
pub proof fn lemma_from_to(range: VersionRange)
    ensures
        VersionRange::from_to(range.low(), range.high()) == range,
{
}

/// A range has the ends that it is made of.
pub proof fn lemma_ends(min: u32, max: u32)
    ensures
        VersionRange::from_to(min, max).low() == min,
        VersionRange::from_to(min, max).high() == max,
{
}

/// Why no version was settled on.
#[derive(Debug, Clone, Copy, PartialEq, Eq)]
pub enum VersionMismatch {
    /// The module did not say which versions it speaks. That is no claim to speak the first one.
    NotDeclared { kernel: VersionRange },
    /// The two sides have no version in common.
    NoOverlap { module: VersionRange, kernel: VersionRange },
}

/// A range in words.
pub open spec fn range_text(range: VersionRange) -> Seq<char> {
    text::decimal(range.low() as nat) + "-"@ + text::decimal(range.high() as nat)
}

fn range_string(range: &VersionRange) -> (r: String)
    ensures
        r@ == range_text(*range),
{
    let low: u64 = range.min() as u64;
    let high: u64 = range.max() as u64;
    text::concat3(
        text::decimal_string(low).as_str(),
        "-",
        text::decimal_string(high).as_str(),
    )
}

impl VersionMismatch {
    /// The name of this failure on the wire.
    pub const KIND: &'static str = "version_mismatch";

    pub open spec fn text(self) -> Seq<char> {
        match self {
            VersionMismatch::NotDeclared { kernel } => {
                "the module declared no protocol versions, this kernel speaks "@ + range_text(kernel)
            },
            VersionMismatch::NoOverlap { module, kernel } => {
                "no shared protocol version: the module speaks "@ + range_text(module)
                    + ", this kernel speaks "@ + range_text(kernel)
            },
        }
    }

    /// The failure in words.
    pub fn to_text(&self) -> (r: String)
        ensures
            r@ == self.text(),
    {
        match self {
            VersionMismatch::NotDeclared { kernel } => {
                let mut out = "the module declared no protocol versions, this kernel speaks "
                    .to_owned();
                out.append(range_string(kernel).as_str());
                out
            },
            VersionMismatch::NoOverlap { module, kernel } => {
                let mut out = "no shared protocol version: the module speaks ".to_owned();
                out.append(range_string(module).as_str());
                out.append(", this kernel speaks ");
                out.append(range_string(kernel).as_str());
                out
            },
        }
    }
}

/// The version that two sides settle on: the highest that both speak.
pub open spec fn settled(module: Option<VersionRange>, kernel: VersionRange) -> Result<
    u32,
    VersionMismatch,
> {
    match module {
        None => Err(VersionMismatch::NotDeclared { kernel }),
        Some(module) => {
            let high = if module.high() <= kernel.high() {
                module.high()
            } else {
                kernel.high()
            };
            if module.has(high as int) && kernel.has(high as int) {
                Ok(high)
            } else {
                Err(VersionMismatch::NoOverlap { module, kernel })
            }
        },
    }
}

/// Settles on a version. A module that declares none is incompatible.
pub fn negotiate(module: Option<VersionRange>, kernel: VersionRange) -> (r: Result<
    u32,
    VersionMismatch,
>)
    ensures
        r == settled(module, kernel),
{
    match module {
        None => Err(VersionMismatch::NotDeclared { kernel }),
        Some(module) => {
            let high: u32 = if module.max() <= kernel.max() {
                module.max()
            } else {
                kernel.max()
            };
            if module.min() <= high && kernel.min() <= high {
                Ok(high)
            } else {
                Err(VersionMismatch::NoOverlap { module, kernel })
            }
        },
    }
}

/// The version settled on is one that both sides speak, and no higher one is.
pub proof fn law_the_settled_version_is_shared(module: VersionRange, kernel: VersionRange)
    ensures
        settled(Some(module), kernel) matches Ok(v) ==> {
            &&& module.has(v as int) && kernel.has(v as int)
            &&& forall|w: int| module.has(w) && kernel.has(w) ==> w <= v
        },
{
}

/// Two ranges that share a version settle on one.
pub proof fn law_overlap_settles(module: VersionRange, kernel: VersionRange, shared: int)
    requires
        module.has(shared),
        kernel.has(shared),
    ensures
        settled(Some(module), kernel) is Ok,
{
}

/// The versions that this kernel speaks.
pub fn kernel_range() -> (r: VersionRange)
    ensures
        r.low() == 1,
        r.high() == 1,
{
    VersionRange { min: 1, max: 1 }
}

/// A version is settled exactly where the module declared some and one of them is the kernel's too;
/// and it is the highest such. Else the mismatch says what each side speaks.
pub proof fn law_the_highest_shared_version_is_settled(module: VersionRange, kernel: VersionRange)
    requires
        module.low() <= module.high(),
        kernel.low() <= kernel.high(),
    ensures
        settled(None, kernel) == Err::<u32, VersionMismatch>(
            VersionMismatch::NotDeclared { kernel },
        ),
        module.low() <= kernel.high() && kernel.low() <= module.high() ==> settled(
            Some(module),
            kernel,
        ) == Ok::<u32, VersionMismatch>(
            if module.high() <= kernel.high() {
                module.high()
            } else {
                kernel.high()
            },
        ),
        module.low() > kernel.high() || kernel.low() > module.high() ==> settled(
            Some(module),
            kernel,
        ) == Err::<u32, VersionMismatch>(VersionMismatch::NoOverlap { module, kernel }),
{
}

/// A range holds its two ends and what lies between them.
pub proof fn law_a_range_holds_its_ends(min: u32, max: u32, version: int)
    ensures
        VersionRange::from_to(min, max).low() == min,
        VersionRange::from_to(min, max).high() == max,
        VersionRange::from_to(min, max).has(version) <==> min <= version && version <= max,
{
}

/// A mismatch in words names the ranges as numbers, the lower one first.
pub proof fn law_a_mismatch_names_the_ranges(module: VersionRange, kernel: VersionRange)
    ensures
        range_text(kernel) == text::decimal(kernel.low() as nat) + seq!['-'] + text::decimal(
            kernel.high() as nat,
        ),
        (VersionMismatch::NotDeclared { kernel }).text()
            == "the module declared no protocol versions, this kernel speaks "@ + range_text(
            kernel,
        ),
        (VersionMismatch::NoOverlap { module, kernel }).text()
            == "no shared protocol version: the module speaks "@ + range_text(module)
            + ", this kernel speaks "@ + range_text(kernel),
{
    reveal_strlit("-");
    assert("-"@ =~= seq!['-']);
}

} // verus!
