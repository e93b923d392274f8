//! Compression levels: the speed/ratio tradeoff.

use crate::arith::min_u32;
use crate::compress::chains::SearchParams;
use vstd::prelude::*;

verus! {

/// Internal compression strategy.
#[derive(Clone, Copy, Debug, PartialEq, Eq, Structural)]
pub enum InternalStrategy {
    /// No compression: store blocks only.
    Store,
    /// Static Huffman codes + turbo matchfinder (single-entry hash, limited updates).
    StaticTurbo,
    /// Dynamic Huffman codes + turbo matchfinder (single-entry hash, limited updates).
    Turbo,
    /// 2-entry hash table + limited hash updates during skips.
    FastHt,
    /// 2-entry hash table with full hash updates.
    HtGreedy,
    /// Hash chain greedy matchfinder.
    Greedy,
    /// Hash chain lazy matchfinder (single lookahead).
    Lazy,
    /// Hash chain double-lazy matchfinder (two lookaheads).
    Lazy2,
    /// Binary tree near-optimal parser with iterative backward DP.
    NearOptimal,
}

/// Value that effectively disables a length threshold (max match len + 1).
pub const DISABLED: u32 = 259;

/// The strategy of an effort.
pub open spec fn strategy_of(effort: int) -> InternalStrategy {
    if effort == 0 {
        InternalStrategy::Store
    } else if effort <= 4 {
        InternalStrategy::Turbo
    } else if effort <= 9 {
        InternalStrategy::FastHt
    } else if effort == 10 {
        InternalStrategy::Greedy
    } else if effort <= 17 {
        InternalStrategy::Lazy
    } else if effort <= 22 {
        InternalStrategy::Lazy2
    } else {
        InternalStrategy::NearOptimal
    }
}

/// Map effort (0-30) to internal strategy.
pub fn effort_to_strategy(effort: u32) -> (r: InternalStrategy)
    ensures
        r == strategy_of(effort as int),
{
    if effort == 0 {
        InternalStrategy::Store
    } else if effort <= 4 {
        InternalStrategy::Turbo
    } else if effort <= 9 {
        InternalStrategy::FastHt
    } else if effort == 10 {
        InternalStrategy::Greedy
    } else if effort <= 17 {
        InternalStrategy::Lazy
    } else if effort <= 22 {
        InternalStrategy::Lazy2
    } else {
        InternalStrategy::NearOptimal
    }
}

/// Compression level controlling the speed/ratio tradeoff.
///
/// | Preset | Effort | Strategy |
/// |--------|--------|----------|
/// | [`none()`](Self::none) | 0 | Store (no compression) |
/// | [`fastest()`](Self::fastest) | 1 | Turbo hash table |
/// | [`fast()`](Self::fast) | 10 | Greedy hash chains |
/// | [`balanced()`](Self::balanced) | 15 | Lazy matching (default) |
/// | [`high()`](Self::high) | 22 | Double-lazy matching |
/// | [`best()`](Self::best) | 30 | Near-optimal parsing |
///
/// [`new(effort)`](Self::new) accepts 0-30 for intermediate tradeoffs.
#[derive(Clone, Copy, Debug, PartialEq, Eq, Structural)]
pub struct CompressionLevel {
    /// The effort (0-30).
    pub effort: u32,
    /// The strategy.
    pub strategy: InternalStrategy,
    /// When Some, use exactly the parameters that libdeflate has at this level.
    pub libdeflate_level: Option<u8>,
}

/// The strategy and the effort of a libdeflate level.
pub open spec fn libdeflate_choice(level: int) -> (InternalStrategy, int) {
    if level == 0 {
        (InternalStrategy::Store, 0)
    } else if level == 1 {
        (InternalStrategy::HtGreedy, 4)
    } else if level == 2 {
        (InternalStrategy::Greedy, 8)
    } else if level == 3 {
        (InternalStrategy::Greedy, 9)
    } else if level == 4 {
        (InternalStrategy::Greedy, 10)
    } else if level == 5 {
        (InternalStrategy::Lazy, 11)
    } else if level == 6 {
        (InternalStrategy::Lazy, 15)
    } else if level == 7 {
        (InternalStrategy::Lazy, 17)
    } else if level == 8 {
        (InternalStrategy::Lazy2, 18)
    } else if level == 9 {
        (InternalStrategy::Lazy2, 22)
    } else if level == 10 {
        (InternalStrategy::NearOptimal, 23)
    } else if level == 11 {
        (InternalStrategy::NearOptimal, 26)
    } else {
        (InternalStrategy::NearOptimal, 30)
    }
}

/// The approximate numeric level (0-12) of an effort.
pub open spec fn level_of_effort(effort: int) -> int {
    if effort == 0 {
        0
    } else if effort <= 9 {
        1
    } else if effort == 10 {
        4
    } else if effort == 11 {
        5
    } else if effort <= 15 {
        6
    } else if effort <= 17 {
        7
    } else if effort <= 19 {
        8
    } else if effort <= 22 {
        9
    } else if effort <= 25 {
        10
    } else if effort <= 28 {
        11
    } else {
        12
    }
}

/// The search depth and the nice match length of a libdeflate level.
pub open spec fn libdeflate_depth(level: int) -> (int, int) {
    if level == 0 {
        (0, 0)
    } else if level == 1 {
        (0, 32)
    } else if level == 2 {
        (6, 10)
    } else if level == 3 {
        (12, 14)
    } else if level == 4 || level == 5 {
        (16, 30)
    } else if level == 6 {
        (35, 65)
    } else if level == 7 {
        (100, 130)
    } else if level == 8 {
        (300, 258)
    } else if level == 9 {
        (600, 258)
    } else if level == 10 {
        (35, 75)
    } else if level == 11 {
        (100, 150)
    } else {
        (300, 258)
    }
}

/// The search depth and the nice match length of a strategy and an effort.
pub open spec fn effort_depth(strategy: InternalStrategy, effort: int) -> (int, int) {
    match strategy {
        InternalStrategy::Store => (0, 0),
        InternalStrategy::StaticTurbo | InternalStrategy::Turbo | InternalStrategy::FastHt
        | InternalStrategy::HtGreedy => {
            if effort <= 1 {
                (0, 16)
            } else if effort <= 4 {
                (0, 32)
            } else if effort == 5 {
                (0, 16)
            } else if effort == 6 {
                (0, 24)
            } else if effort == 7 {
                (0, 32)
            } else if effort == 8 {
                (0, 64)
            } else {
                (0, 128)
            }
        },
        InternalStrategy::Greedy => {
            if effort <= 8 {
                (6, 10)
            } else if effort == 9 {
                (12, 14)
            } else {
                (16, 30)
            }
        },
        InternalStrategy::Lazy => {
            if effort <= 11 {
                (16, 30)
            } else if effort == 12 {
                (20, 40)
            } else if effort == 13 {
                (35, 65)
            } else if effort == 14 {
                (50, 80)
            } else if effort == 15 {
                (65, 100)
            } else if effort == 16 {
                (80, 115)
            } else {
                (100, 130)
            }
        },
        InternalStrategy::Lazy2 => {
            if effort <= 18 {
                (300, 258)
            } else if effort == 19 {
                (350, 258)
            } else if effort == 20 {
                (400, 258)
            } else if effort == 21 {
                (500, 258)
            } else {
                (600, 258)
            }
        },
        InternalStrategy::NearOptimal => {
            if effort <= 23 {
                (35, 75)
            } else if effort == 24 {
                (60, 100)
            } else if effort <= 26 {
                (100, 150)
            } else if effort == 27 {
                (125, 200)
            } else if effort == 28 {
                (150, 258)
            } else if effort == 29 {
                (200, 258)
            } else {
                (300, 258)
            }
        },
    }
}

/// The lengths from which on to search less and to look ahead no more.
pub open spec fn effort_lazy(strategy: InternalStrategy, effort: int) -> (int, int) {
    match strategy {
        InternalStrategy::Greedy => {
            if effort <= 8 {
                (4, 259)
            } else if effort == 9 {
                (5, 259)
            } else {
                (6, 259)
            }
        },
        InternalStrategy::Lazy => {
            if effort <= 11 {
                (6, 6)
            } else if effort == 12 {
                (8, 10)
            } else if effort == 13 {
                (10, 18)
            } else if effort == 14 {
                (14, 32)
            } else if effort == 15 {
                (32, 64)
            } else if effort == 16 {
                (64, 128)
            } else {
                (128, 258)
            }
        },
        InternalStrategy::Lazy2 => {
            if effort <= 18 {
                (64, 64)
            } else if effort == 19 {
                (96, 96)
            } else if effort == 20 {
                (128, 128)
            } else {
                (259, 259)
            }
        },
        _ => (259, 259),
    }
}

impl CompressionLevel {
    /// The level is one that can be made: by an effort, or by a libdeflate level.
    pub open spec fn wf(&self) -> bool {
        match self.libdeflate_level {
            Some(l) => {
                &&& l <= 12
                &&& (self.strategy, self.effort as int) == libdeflate_choice(l as int)
            },
            None => {
                &&& self.effort <= 30
                &&& self.strategy == strategy_of(self.effort as int)
            },
        }
    }

    /// The approximate numeric level (0-12).
    pub open spec fn number(&self) -> int {
        match self.libdeflate_level {
            Some(l) => l as int,
            None => level_of_effort(self.effort as int),
        }
    }

    /// Create a compression level from an effort value (0-30). Clamps to 0-30.
    ///
    /// Higher effort = better compression ratio but slower.
    pub fn new(effort: u32) -> (r: Self)
        ensures
            r.wf(),
            r.libdeflate_level is None,
            r.effort == if effort <= 30 {
                effort
            } else {
                30
            },
    {
        let e: u32 = min_u32(effort, 30);
        CompressionLevel { effort: e, strategy: effort_to_strategy(e), libdeflate_level: None }
    }

    /// Create a compression level with exactly the parameters that libdeflate has
    /// at the given level (0-12). Clamps to 0-12.
    pub fn libdeflate(level: u32) -> (r: Self)
        ensures
            r.wf(),
            r.libdeflate_level == Some(
                if level <= 12 {
                    level as u8
                } else {
                    12u8
                },
            ),
    {
        let l: u32 = min_u32(level, 12);
        let choice: (InternalStrategy, u32) = if l == 0 {
            (InternalStrategy::Store, 0)
        } else if l == 1 {
            (InternalStrategy::HtGreedy, 4)
        } else if l == 2 {
            (InternalStrategy::Greedy, 8)
        } else if l == 3 {
            (InternalStrategy::Greedy, 9)
        } else if l == 4 {
            (InternalStrategy::Greedy, 10)
        } else if l == 5 {
            (InternalStrategy::Lazy, 11)
        } else if l == 6 {
            (InternalStrategy::Lazy, 15)
        } else if l == 7 {
            (InternalStrategy::Lazy, 17)
        } else if l == 8 {
            (InternalStrategy::Lazy2, 18)
        } else if l == 9 {
            (InternalStrategy::Lazy2, 22)
        } else if l == 10 {
            (InternalStrategy::NearOptimal, 23)
        } else if l == 11 {
            (InternalStrategy::NearOptimal, 26)
        } else {
            (InternalStrategy::NearOptimal, 30)
        };
        CompressionLevel {
            effort: choice.1,
            strategy: choice.0,
            libdeflate_level: Some(l as u8),
        }
    }

    /// Get the effort level (0-30).
    pub fn effort(self) -> (r: u32)
        ensures
            r == self.effort,
    {
        self.effort
    }

    /// Returns true if this level was created with [`libdeflate()`](Self::libdeflate).
    pub fn is_libdeflate_compat(self) -> (r: bool)
        ensures
            r == (self.libdeflate_level is Some),
    {
        match self.libdeflate_level {
            Some(_) => true,
            None => false,
        }
    }

    /// Get the approximate numeric level (0-12).
    ///
    /// For levels created with [`libdeflate()`](Self::libdeflate), returns the
    /// exact libdeflate level. For effort-based levels, returns an approximation.
    pub fn level(self) -> (r: u32)
        ensures
            r == self.number(),
    {
        if let Some(l) = self.libdeflate_level {
            return l as u32;
        }
        let effort: u32 = self.effort;
        if effort == 0 {
            0
        } else if effort <= 9 {
            1
        } else if effort == 10 {
            4
        } else if effort == 11 {
            5
        } else if effort <= 15 {
            6
        } else if effort <= 17 {
            7
        } else if effort <= 19 {
            8
        } else if effort <= 22 {
            9
        } else if effort <= 25 {
            10
        } else if effort <= 28 {
            11
        } else {
            12
        }
    }

    /// Internal strategy for dispatch.
    pub fn strategy(self) -> (r: InternalStrategy)
        ensures
            r == self.strategy,
    {
        self.strategy
    }

    /// Effort 0: no compression. Wraps input in uncompressed DEFLATE blocks.
    pub fn none() -> (r: Self)
        ensures
            r.wf(),
            r.strategy == InternalStrategy::Store,
            r.libdeflate_level is None,
            r.effort == 0,
    {
        Self::new(0)
    }

    /// Effort 1: fastest compression. Turbo matchfinder with dynamic Huffman.
    pub fn fastest() -> (r: Self)
        ensures
            r.wf(),
            r.strategy == InternalStrategy::Turbo,
            r.libdeflate_level is None,
            r.effort == 1,
    {
        Self::new(1)
    }

    /// Effort 10: fast compression. Greedy hash-chain matchfinder.
    pub fn fast() -> (r: Self)
        ensures
            r.wf(),
            r.strategy == InternalStrategy::Greedy,
            r.libdeflate_level is None,
            r.effort == 10,
    {
        Self::new(10)
    }

    /// Effort 15: balanced compression. Lazy hash-chain matchfinder.
    /// This is the default.
    pub fn balanced() -> (r: Self)
        ensures
            r.wf(),
            r.strategy == InternalStrategy::Lazy,
            r.libdeflate_level is None,
            r.effort == 15,
    {
        Self::new(15)
    }

    /// Effort 22: high compression. Double-lazy hash-chain matchfinder.
    /// Best ratio before the much slower near-optimal parser.
    pub fn high() -> (r: Self)
        ensures
            r.wf(),
            r.strategy == InternalStrategy::Lazy2,
            r.libdeflate_level is None,
            r.effort == 22,
    {
        Self::new(22)
    }

    /// Effort 30: maximum compression. Near-optimal parser with multiple passes.
    pub fn best() -> (r: Self)
        ensures
            r.wf(),
            r.strategy == InternalStrategy::NearOptimal,
            r.libdeflate_level is None,
            r.effort == 30,
    {
        Self::new(30)
    }

    /// Returns a fallback level to test for monotonicity across strategies.
    ///
    /// A more sophisticated strategy can produce larger output than a simpler one
    /// on some data, even at higher effort. When this returns `Some(fallback)`,
    /// callers wanting monotonic output should compress with both `self` and
    /// `fallback`, keeping the smaller result.
    ///
    /// Each strategy's levels fall back to the previous strategy's maximum effort.
    pub fn monotonicity_fallback(&self) -> (r: Option<CompressionLevel>)
        requires
            self.wf(),
        ensures
            r is Some <==> self.libdeflate_level is None && self.effort >= 10,
            r matches Some(f) ==> {
                &&& f.wf()
                &&& f.libdeflate_level is None
                &&& f.effort == fallback_effort(self.effort as int)
            },
    {
        if let Some(_) = self.libdeflate_level {
            return None;
        }
        if self.effort < 10 {
            None
        } else if self.effort == 10 {
            Some(Self::new(9))
        } else if self.effort <= 17 {
            Some(Self::new(10))
        } else if self.effort <= 22 {
            Some(Self::new(17))
        } else {
            Some(Self::new(22))
        }
    }

    /// Returns compression parameters for Compressor initialization.
    pub fn compression_params(self) -> (r: SearchParams)
        ensures
            self.libdeflate_level matches Some(l) ==> (
                r.max_search_depth as int,
                r.nice_match_length as int,
            ) == libdeflate_depth(l as int) && r.good_match == 259 && r.max_lazy == 259,
            self.libdeflate_level is None ==> (
                r.max_search_depth as int,
                r.nice_match_length as int,
            ) == effort_depth(self.strategy, self.effort as int) && (
                r.good_match as int,
                r.max_lazy as int,
            ) == effort_lazy(self.strategy, self.effort as int),
    {
        if let Some(l) = self.libdeflate_level {
            let d: (u32, u32) = if l == 0 {
                (0, 0)
            } else if l == 1 {
                (0, 32)
            } else if l == 2 {
                (6, 10)
            } else if l == 3 {
                (12, 14)
            } else if l == 4 || l == 5 {
                (16, 30)
            } else if l == 6 {
                (35, 65)
            } else if l == 7 {
                (100, 130)
            } else if l == 8 {
                (300, 258)
            } else if l == 9 {
                (600, 258)
            } else if l == 10 {
                (35, 75)
            } else if l == 11 {
                (100, 150)
            } else {
                (300, 258)
            };
            return SearchParams {
                max_search_depth: d.0,
                nice_match_length: d.1,
                good_match: DISABLED,
                max_lazy: DISABLED,
            };
        }
        let d: (u32, u32) = self.depth_and_nice_length();
        let z: (u32, u32) = self.good_and_lazy_length();
        SearchParams {
            max_search_depth: d.0,
            nice_match_length: d.1,
            good_match: z.0,
            max_lazy: z.1,
        }
    }

    /// The search depth and the nice match length by strategy and effort.
    fn depth_and_nice_length(self) -> (r: (u32, u32))
        ensures
            (r.0 as int, r.1 as int) == effort_depth(self.strategy, self.effort as int),
    {
        let e: u32 = self.effort;
        match self.strategy {
            InternalStrategy::Store => (0, 0),
            InternalStrategy::StaticTurbo | InternalStrategy::Turbo | InternalStrategy::FastHt
            | InternalStrategy::HtGreedy => {
                if e <= 1 {
                    (0, 16)
                } else if e <= 4 {
                    (0, 32)
                } else if e == 5 {
                    (0, 16)
                } else if e == 6 {
                    (0, 24)
                } else if e == 7 {
                    (0, 32)
                } else if e == 8 {
                    (0, 64)
                } else {
                    (0, 128)
                }
            },
            InternalStrategy::Greedy => {
                if e <= 8 {
                    (6, 10)
                } else if e == 9 {
                    (12, 14)
                } else {
                    (16, 30)
                }
            },
            InternalStrategy::Lazy => {
                if e <= 11 {
                    (16, 30)
                } else if e == 12 {
                    (20, 40)
                } else if e == 13 {
                    (35, 65)
                } else if e == 14 {
                    (50, 80)
                } else if e == 15 {
                    (65, 100)
                } else if e == 16 {
                    (80, 115)
                } else {
                    (100, 130)
                }
            },
            InternalStrategy::Lazy2 => {
                if e <= 18 {
                    (300, 258)
                } else if e == 19 {
                    (350, 258)
                } else if e == 20 {
                    (400, 258)
                } else if e == 21 {
                    (500, 258)
                } else {
                    (600, 258)
                }
            },
            InternalStrategy::NearOptimal => {
                if e <= 23 {
                    (35, 75)
                } else if e == 24 {
                    (60, 100)
                } else if e <= 26 {
                    (100, 150)
                } else if e == 27 {
                    (125, 200)
                } else if e == 28 {
                    (150, 258)
                } else if e == 29 {
                    (200, 258)
                } else {
                    (300, 258)
                }
            },
        }
    }

    /// The lengths from which on to search less and to look ahead no more.
    fn good_and_lazy_length(self) -> (r: (u32, u32))
        ensures
            (r.0 as int, r.1 as int) == effort_lazy(self.strategy, self.effort as int),
    {
        let e: u32 = self.effort;
        match self.strategy {
            InternalStrategy::Greedy => {
                if e <= 8 {
                    (4, DISABLED)
                } else if e == 9 {
                    (5, DISABLED)
                } else {
                    (6, DISABLED)
                }
            },
            InternalStrategy::Lazy => {
                if e <= 11 {
                    (6, 6)
                } else if e == 12 {
                    (8, 10)
                } else if e == 13 {
                    (10, 18)
                } else if e == 14 {
                    (14, 32)
                } else if e == 15 {
                    (32, 64)
                } else if e == 16 {
                    (64, 128)
                } else {
                    (128, 258)
                }
            },
            InternalStrategy::Lazy2 => {
                if e <= 18 {
                    (64, 64)
                } else if e == 19 {
                    (96, 96)
                } else if e == 20 {
                    (128, 128)
                } else {
                    (DISABLED, DISABLED)
                }
            },
            _ => (DISABLED, DISABLED),
        }
    }

    /// Returns (passes, improvement_threshold, nonfinal_threshold,
    /// static_opt_threshold) for near-optimal compression.
    pub fn near_optimal_params(self) -> (r: (u32, u32, u32, u32))
        ensures
            r == near_params(self),
    {
        if let Some(l) = self.libdeflate_level {
            return if l == 10 {
                (2, 32, 32, 0)
            } else if l == 11 {
                (4, 16, 16, 1000)
            } else {
                (10, 1, 1, 10000)
            };
        }
        if self.effort <= 25 {
            (2, 32, 32, 0)
        } else if self.effort <= 28 {
            (4, 16, 16, 1000)
        } else {
            (10, 1, 1, 10000)
        }
    }
}

/// Passes, improvement threshold, threshold for going back, and length for static blocks,
/// for near-optimal compression at a level.
pub open spec fn near_params(level: CompressionLevel) -> (u32, u32, u32, u32) {
    let few = match level.libdeflate_level {
        Some(l) => l == 10,
        None => level.effort <= 25,
    };
    let some = match level.libdeflate_level {
        Some(l) => l == 11,
        None => 26 <= level.effort <= 28,
    };
    if few {
        (2u32, 32u32, 32u32, 0u32)
    } else if some {
        (4u32, 16u32, 16u32, 1000u32)
    } else {
        (10u32, 1u32, 1u32, 10000u32)
    }
}

impl Default for CompressionLevel {
    fn default() -> (r: Self)
        ensures
            r.wf(),
            r.libdeflate_level is None,
            r.effort == 15,
    {
        Self::balanced()
    }
}

/// The effort to fall back to.
pub open spec fn fallback_effort(effort: int) -> int {
    if effort == 10 {
        9
    } else if effort <= 17 {
        10
    } else if effort <= 22 {
        17
    } else {
        22
    }
}

/// A fallback is the highest effort of the strategy just before: it has a simpler strategy,
/// and with one more effort it would have the strategy that is fallen back from. So the chain
/// of fallbacks ends.
pub proof fn law_fallback_descends(effort: int)
    requires
        10 <= effort <= 30,
    ensures
        0 <= fallback_effort(effort) < effort,
        rank(strategy_of(fallback_effort(effort))) < rank(strategy_of(effort)),
        strategy_of(fallback_effort(effort) + 1) == strategy_of(effort),
{
}

/// More effort never means a smaller search depth within a strategy.
pub proof fn law_depth_grows(strategy: InternalStrategy, a: int, b: int)
    requires
        0 <= a <= b <= 30,
    ensures
        effort_depth(strategy, a).0 <= effort_depth(strategy, b).0,
{
}

/// How elaborate a strategy is.
pub open spec fn rank(strategy: InternalStrategy) -> int {
    match strategy {
        InternalStrategy::Store => 0,
        InternalStrategy::StaticTurbo => 1,
        InternalStrategy::Turbo => 2,
        InternalStrategy::FastHt => 3,
        InternalStrategy::HtGreedy => 4,
        InternalStrategy::Greedy => 5,
        InternalStrategy::Lazy => 6,
        InternalStrategy::Lazy2 => 7,
        InternalStrategy::NearOptimal => 8,
    }
}

/// Only no effort means no compression.
pub proof fn law_effort_compresses(level: CompressionLevel)
    requires
        level.wf(),
    ensures
        level.strategy == InternalStrategy::Store <==> level.effort == 0,
        level.strategy == InternalStrategy::Store <==> level.number() == 0,
        level.strategy != InternalStrategy::StaticTurbo,
{
}

/// More effort never means a simpler strategy, and no strategy is left out from the hash
/// chains on: up to effort 4 there are no chains and no second entries, up to 9 there are
/// no chains, and each of the others begins where the one before it ends.
pub proof fn law_strategies_in_order(a: CompressionLevel, b: CompressionLevel)
    requires
        a.wf(),
        b.wf(),
        a.libdeflate_level is Some == b.libdeflate_level is Some,
        a.effort <= b.effort,
    ensures
        rank(a.strategy) <= rank(b.strategy),
        a.libdeflate_level is None && a.strategy == b.strategy ==> {
            ||| 1 <= a.effort && b.effort <= 4
            ||| 5 <= a.effort && b.effort <= 9
            ||| 11 <= a.effort && b.effort <= 17
            ||| 18 <= a.effort && b.effort <= 22
            ||| 23 <= a.effort && b.effort <= 30
            ||| a.effort == b.effort
        },
        a.libdeflate_level is None && b.effort == a.effort + 1 && a.strategy != b.strategy
            && a.effort > 0 ==> rank(b.strategy) == rank(a.strategy) + if a.effort == 9 {
            2int
        } else {
            1
        },
{
}

/// The strategies of the efforts that have a name.
pub proof fn law_strategy_names(level: CompressionLevel)
    requires
        level.wf(),
        level.libdeflate_level is None,
    ensures
        level.strategy == InternalStrategy::Turbo <==> 1 <= level.effort <= 4,
        level.strategy == InternalStrategy::FastHt <==> 5 <= level.effort <= 9,
        level.strategy == InternalStrategy::Greedy <==> level.effort == 10,
        level.strategy == InternalStrategy::Lazy <==> 11 <= level.effort <= 17,
        level.strategy == InternalStrategy::Lazy2 <==> 18 <= level.effort <= 22,
        level.strategy == InternalStrategy::NearOptimal <==> level.effort >= 23,
{
}

/// The strategies of the libdeflate levels, and the efforts that they are closest to: higher
/// levels have higher efforts.
pub proof fn law_libdeflate_levels(a: CompressionLevel, b: CompressionLevel)
    requires
        a.wf(),
        b.wf(),
        a.libdeflate_level is Some,
        b.libdeflate_level is Some,
    ensures
        a.libdeflate_level->0 < b.libdeflate_level->0 ==> a.effort < b.effort && rank(a.strategy)
            <= rank(b.strategy),
        a.strategy == InternalStrategy::HtGreedy <==> a.libdeflate_level == Some(1u8),
        a.strategy == InternalStrategy::Greedy <==> 2 <= a.libdeflate_level->0 <= 4,
        a.strategy == InternalStrategy::Lazy <==> 5 <= a.libdeflate_level->0 <= 7,
        a.strategy == InternalStrategy::Lazy2 <==> 8 <= a.libdeflate_level->0 <= 9,
        a.strategy == InternalStrategy::NearOptimal <==> 10 <= a.libdeflate_level->0,
{
}

/// The numeric level grows with the effort, from 0 for none to 12 for the most, and a level
/// with that number has a strategy of the same kind from the hash chains on.
pub proof fn law_numbers_grow(a: CompressionLevel, b: CompressionLevel)
    requires
        a.wf(),
        b.wf(),
    ensures
        0 <= a.number() <= 12,
        a.libdeflate_level is None && b.libdeflate_level is None && a.effort <= b.effort
            ==> a.number() <= b.number(),
        a.number() == 0 <==> a.effort == 0,
        a.number() == b.number() && a.effort >= 10 && b.effort >= 10 ==> a.strategy == b.strategy,
        a.effort == 30 ==> a.number() == 12,
{
}

/// More effort within a strategy never means to give up sooner: a search looks at no fewer
/// positions, and the lengths from which on it is content, looks at fewer positions or does
/// not look ahead are no smaller.
pub proof fn law_patience_grows(strategy: InternalStrategy, a: int, b: int)
    requires
        0 <= a <= b <= 30,
        strategy_of(a) == strategy,
        strategy_of(b) == strategy,
    ensures
        effort_depth(strategy, a).0 <= effort_depth(strategy, b).0,
        effort_depth(strategy, a).1 <= effort_depth(strategy, b).1,
        effort_lazy(strategy, a).0 <= effort_lazy(strategy, b).0,
        effort_lazy(strategy, a).1 <= effort_lazy(strategy, b).1,
{
}

/// What each strategy searches at least and at most: chains and trees of four positions or
/// more, and no match is good enough unless it has ten bytes.
pub proof fn law_searches_enough(level: CompressionLevel, p: SearchParams)
    requires
        level.wf(),
        level.effort > 0,
        level.libdeflate_level matches Some(l) ==> (
            p.max_search_depth as int,
            p.nice_match_length as int,
        ) == libdeflate_depth(l as int),
        level.libdeflate_level is None ==> (p.max_search_depth as int, p.nice_match_length as int)
            == effort_depth(level.strategy, level.effort as int),
    ensures
        10 <= p.nice_match_length <= 258,
        rank(level.strategy) >= rank(InternalStrategy::Greedy) ==> 6 <= p.max_search_depth <= 600,
        level.strategy == InternalStrategy::Lazy ==> p.max_search_depth >= 16
            && p.nice_match_length >= 30,
        level.strategy == InternalStrategy::Lazy2 ==> p.max_search_depth >= 300
            && p.nice_match_length == 258,
        level.strategy == InternalStrategy::NearOptimal ==> p.max_search_depth >= 35
            && p.nice_match_length >= 75,
{
}

/// A libdeflate level and the effort at which its strategy begins or ends search alike.
pub proof fn law_levels_meet_efforts(l: int)
    requires
        0 <= l <= 12,
        l != 6,
    ensures
        libdeflate_depth(l) == effort_depth(libdeflate_choice(l).0, libdeflate_choice(l).1),
        l != 1 && l != 2 && l != 3 ==> strategy_of(libdeflate_choice(l).1)
            == libdeflate_choice(l).0,
{
}

/// More effort never means fewer passes over a block of the near-optimal strategy, nor that a
/// pass has to gain more to be worth it, nor that fewer blocks are tried with the static
/// codes; there are two passes at least.
pub proof fn law_passes_grow(a: CompressionLevel, b: CompressionLevel)
    requires
        a.wf(),
        b.wf(),
        a.strategy == InternalStrategy::NearOptimal,
        b.strategy == InternalStrategy::NearOptimal,
        a.libdeflate_level is Some == b.libdeflate_level is Some,
        a.effort <= b.effort,
    ensures
        2 <= near_params(a).0 <= near_params(b).0 <= 10,
        near_params(a).1 >= near_params(b).1 >= 1,
        near_params(a).2 >= near_params(b).2 >= 1,
        near_params(a).3 <= near_params(b).3 <= 10000,
{
}

} // verus!
