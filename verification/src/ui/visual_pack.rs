//! The symbol sets the launcher can draw with: a rich Unicode pack, a
//! conservative one, and plain ASCII. Colouring and cursor styling live
//! with the terminal code outside.
use vstd::prelude::*;

use crate::rank::RankSource;

verus! {

/// A drawable spot of the interface.
#[derive(Clone, Copy, Debug)]
pub enum VisualPackChars {
    /// The marker left of a result: which stage found it, and whether the
    /// entry is a directory.
    ResultLeft(RankSource, bool),
    SearchBarLeft,
    SearchBarRight,
}

/// One coherent set of interface symbols.
#[derive(Clone, Copy, Debug, PartialEq, Eq, Structural)]
pub enum VisualPack {
    ExtendedUnicode,
    CommonUnicode,
    Ascii,
}

impl VisualPack {
    /// The characters drawn at the given spot under this pack.
    pub open spec fn spec_symbol(self, symbol: VisualPackChars) -> Seq<char> {
        match self {
            VisualPack::ExtendedUnicode => match symbol {
                VisualPackChars::ResultLeft(_, d) => if d {
                    "\u{58e}"@
                } else {
                    "\u{6de}"@
                },
                VisualPackChars::SearchBarLeft => "\u{15e7} "@,
                VisualPackChars::SearchBarRight => " \u{15e4}"@,
            },
            VisualPack::CommonUnicode => match symbol {
                VisualPackChars::ResultLeft(_, d) => if d {
                    "\u{25b8}"@
                } else {
                    "\u{25aa}"@
                },
                VisualPackChars::SearchBarLeft => "["@,
                VisualPackChars::SearchBarRight => " ]"@,
            },
            VisualPack::Ascii => match symbol {
                VisualPackChars::ResultLeft(_, d) => if d {
                    ">"@
                } else {
                    "*"@
                },
                VisualPackChars::SearchBarLeft => "["@,
                VisualPackChars::SearchBarRight => " ]"@,
            },
        }
    }

    pub fn get_symbol(&self, symbol: VisualPackChars) -> (r: &'static str)
        ensures
            r@ == self.spec_symbol(symbol),
    {
        match self {
            VisualPack::ExtendedUnicode => match symbol {
                VisualPackChars::ResultLeft(_, d) => if d {
                    "\u{58e}"
                } else {
                    "\u{6de}"
                },
                VisualPackChars::SearchBarLeft => "\u{15e7} ",
                VisualPackChars::SearchBarRight => " \u{15e4}",
            },
            VisualPack::CommonUnicode => match symbol {
                VisualPackChars::ResultLeft(_, d) => if d {
                    "\u{25b8}"
                } else {
                    "\u{25aa}"
                },
                VisualPackChars::SearchBarLeft => "[",
                VisualPackChars::SearchBarRight => " ]",
            },
            VisualPack::Ascii => match symbol {
                VisualPackChars::ResultLeft(_, d) => if d {
                    ">"
                } else {
                    "*"
                },
                VisualPackChars::SearchBarLeft => "[",
                VisualPackChars::SearchBarRight => " ]",
            },
        }
    }
}

} // verus!
