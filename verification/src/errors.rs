use crate::apint::ApInt;
use crate::apint::ApIntView;
use crate::radix::Radix;
use vstd::prelude::*;

verus! {

/// The division or remainder operation that met a zero divisor.
#[derive(Debug, Clone, Copy, PartialEq, Eq, Structural, Hash)]
pub enum DivOp {
    /// Unsigned division.
    UnsignedDiv,
    /// Signed division.
    SignedDiv,
    /// Unsigned remainder.
    UnsignedRem,
    /// Signed remainder.
    SignedRem,
}

/// What went wrong, with the values that say where.
#[derive(Debug, Clone, PartialEq, Eq)]
pub enum ErrorKind {
    /// A bit width of zero was asked for.
    InvalidBitWidth(usize),
    /// A radix outside 2 to 36 was asked for.
    InvalidRadix(u8),
    /// The input string is empty, or starts or ends with an underscore.
    InvalidStringRepr { input: String, radix: Radix },
    /// The input string holds a character that is no digit of the radix.
    InvalidCharInStringRepr { input: String, radix: Radix, position: usize, character: char },
    /// The parsed value needs more bits than the target width has.
    ValueExceedsBitWidth { parsed_bits: usize, target_width: usize },
    /// The two operands of a binary operation differ in width.
    UnmatchingBitWidths(usize, usize),
    /// A bit position at or above the width was asked for.
    InvalidBitAccess { position: usize, width: usize },
    /// A shift amount at or above the width was asked for.
    InvalidShiftAmount { amount: usize, width: usize },
    /// A division or remainder by zero was asked for.
    DivisionByZero { op: DivOp, dividend: ApInt },
    /// A bit position at or above 64 was asked of a digit.
    OutOfBounds,
}

/// An error of this library: its kind, and a note for the reader where one
/// was attached.
#[derive(Debug, Clone, PartialEq, Eq)]
pub struct Error {
    pub kind: ErrorKind,
    pub annotation: Option<String>,
}

/// The mathematical content of an [`ErrorKind`].
pub enum ErrorKindView {
    InvalidBitWidth(nat),
    InvalidRadix(nat),
    InvalidStringRepr { input: Seq<char>, radix: nat },
    InvalidCharInStringRepr { input: Seq<char>, radix: nat, position: nat, character: char },
    ValueExceedsBitWidth { parsed_bits: nat, target_width: nat },
    UnmatchingBitWidths(nat, nat),
    InvalidBitAccess { position: nat, width: nat },
    InvalidShiftAmount { amount: nat, width: nat },
    DivisionByZero { op: DivOp, dividend: ApIntView },
    OutOfBounds,
}

/// The mathematical content of an [`Error`].
pub struct ErrorView {
    pub kind: ErrorKindView,
    pub annotation: Option<Seq<char>>,
}

impl ErrorView {
    /// An error of the given kind without a note.
    pub open spec fn plain(kind: ErrorKindView) -> ErrorView {
        ErrorView { kind, annotation: None }
    }

    /// An error of the given kind with the note `text`.
    pub open spec fn noted(kind: ErrorKindView, text: Seq<char>) -> ErrorView {
        ErrorView { kind, annotation: Some(text) }
    }
}

impl View for ErrorKind {
    type V = ErrorKindView;

    open spec fn view(&self) -> ErrorKindView {
        match *self {
            ErrorKind::InvalidBitWidth(n) => ErrorKindView::InvalidBitWidth(n as nat),
            ErrorKind::InvalidRadix(r) => ErrorKindView::InvalidRadix(r as nat),
            ErrorKind::InvalidStringRepr { input, radix } => ErrorKindView::InvalidStringRepr {
                input: input@,
                radix: radix.value(),
            },
            ErrorKind::InvalidCharInStringRepr {
                input,
                radix,
                position,
                character,
            } => ErrorKindView::InvalidCharInStringRepr {
                input: input@,
                radix: radix.value(),
                position: position as nat,
                character,
            },
            ErrorKind::ValueExceedsBitWidth {
                parsed_bits,
                target_width,
            } => ErrorKindView::ValueExceedsBitWidth {
                parsed_bits: parsed_bits as nat,
                target_width: target_width as nat,
            },
            ErrorKind::UnmatchingBitWidths(l, r) => ErrorKindView::UnmatchingBitWidths(
                l as nat,
                r as nat,
            ),
            ErrorKind::InvalidBitAccess { position, width } => ErrorKindView::InvalidBitAccess {
                position: position as nat,
                width: width as nat,
            },
            ErrorKind::InvalidShiftAmount { amount, width } => ErrorKindView::InvalidShiftAmount {
                amount: amount as nat,
                width: width as nat,
            },
            ErrorKind::DivisionByZero { op, dividend } => ErrorKindView::DivisionByZero {
                op,
                dividend: dividend@,
            },
            ErrorKind::OutOfBounds => ErrorKindView::OutOfBounds,
        }
    }
}

impl View for Error {
    type V = ErrorView;

    open spec fn view(&self) -> ErrorView {
        ErrorView {
            kind: self.kind@,
            annotation: match self.annotation {
                Some(text) => Some(text@),
                None => None,
            },
        }
    }
}

impl Error {
    /// The error for a bit width of zero.
    pub fn invalid_bitwidth(width: usize) -> (e: Error)
        ensures
            e@ == ErrorView::plain(ErrorKindView::InvalidBitWidth(width as nat)),
    {
        Error { kind: ErrorKind::InvalidBitWidth(width), annotation: None }
    }

    /// The error for a radix outside 2 to 36.
    pub fn invalid_radix(radix: u8) -> (e: Error)
        ensures
            e@ == ErrorView::plain(ErrorKindView::InvalidRadix(radix as nat)),
    {
        Error { kind: ErrorKind::InvalidRadix(radix), annotation: None }
    }

    /// The error for an input string that cannot stand for a value at all.
    pub fn invalid_string_repr(input: &str, radix: Radix) -> (e: Error)
        ensures
            e@ == ErrorView::plain(
                ErrorKindView::InvalidStringRepr { input: input@, radix: radix.value() },
            ),
    {
        Error {
            kind: ErrorKind::InvalidStringRepr { input: input.to_owned(), radix },
            annotation: None,
        }
    }

    /// The error for a character of the input that is no digit of the radix.
    pub fn invalid_char_in_string_repr(
        input: &str,
        radix: Radix,
        position: usize,
        character: char,
    ) -> (e: Error)
        ensures
            e@ == ErrorView::plain(
                ErrorKindView::InvalidCharInStringRepr {
                    input: input@,
                    radix: radix.value(),
                    position: position as nat,
                    character,
                },
            ),
    {
        Error {
            kind: ErrorKind::InvalidCharInStringRepr {
                input: input.to_owned(),
                radix,
                position,
                character,
            },
            annotation: None,
        }
    }

    /// The error for a parsed value of `parsed_bits` bits that does not fit
    /// the target width.
    pub fn value_exceeds_bitwidth(parsed_bits: usize, target_width: usize) -> (e: Error)
        ensures
            e@ == ErrorView::plain(
                ErrorKindView::ValueExceedsBitWidth {
                    parsed_bits: parsed_bits as nat,
                    target_width: target_width as nat,
                },
            ),
    {
        Error { kind: ErrorKind::ValueExceedsBitWidth { parsed_bits, target_width }, annotation: None }
    }

    /// The error for operands of the widths `lhs` and `rhs`, which differ.
    pub fn unmatching_bitwidths(lhs: usize, rhs: usize) -> (e: Error)
        ensures
            e@ == ErrorView::plain(ErrorKindView::UnmatchingBitWidths(lhs as nat, rhs as nat)),
    {
        Error { kind: ErrorKind::UnmatchingBitWidths(lhs, rhs), annotation: None }
    }

    /// The error for a bit position at or above the width.
    pub fn invalid_bit_access(position: usize, width: usize) -> (e: Error)
        ensures
            e@ == ErrorView::plain(
                ErrorKindView::InvalidBitAccess { position: position as nat, width: width as nat },
            ),
    {
        Error { kind: ErrorKind::InvalidBitAccess { position, width }, annotation: None }
    }

    /// The error for a shift amount at or above the width.
    pub fn invalid_shift_amount(amount: usize, width: usize) -> (e: Error)
        ensures
            e@ == ErrorView::plain(
                ErrorKindView::InvalidShiftAmount { amount: amount as nat, width: width as nat },
            ),
    {
        Error { kind: ErrorKind::InvalidShiftAmount { amount, width }, annotation: None }
    }

    /// The error for a division or remainder of `dividend` by zero.
    pub fn division_by_zero(op: DivOp, dividend: ApInt) -> (e: Error)
        ensures
            e@ == ErrorView::plain(ErrorKindView::DivisionByZero { op, dividend: dividend@ }),
    {
        Error { kind: ErrorKind::DivisionByZero { op, dividend }, annotation: None }
    }

    /// The error for a bit position at or above 64 in a digit.
    pub fn out_of_bounds() -> (e: Error)
        ensures
            e@ == ErrorView::plain(ErrorKindView::OutOfBounds),
    {
        Error { kind: ErrorKind::OutOfBounds, annotation: None }
    }

    /// This error with the note `annotation` attached, in place of any
    /// earlier note.
    pub fn with_annotation(self, annotation: &str) -> (e: Error)
        ensures
            e@ == ErrorView::noted(self@.kind, annotation@),
    {
        Error { kind: self.kind, annotation: Some(annotation.to_owned()) }
    }

    /// The kind of this error.
    pub fn kind(&self) -> (k: &ErrorKind)
        ensures
            *k == self.kind,
    {
        &self.kind
    }

    /// The note attached to this error, if there is one.
    pub fn annotation(&self) -> (a: &Option<String>)
        ensures
            *a == self.annotation,
    {
        &self.annotation
    }
}

} // verus!
