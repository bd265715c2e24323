//! Difficulty tiers: which directions a puzzle may use.

use vstd::prelude::*;

use crate::direction::Direction;

verus! {

/// Which axes a puzzle uses, and whether words may run backwards along them.
#[derive(Debug, Clone)]
pub struct Difficulty {
    pub allow_horizontal: bool,
    pub allow_vertical: bool,
    pub allow_diagonal: bool,
    pub allow_reverse: bool,
}

impl Difficulty {
    /// Whether this difficulty admits `direction`: its axis must be allowed,
    /// and a reverse direction needs `allow_reverse` as well.
    pub open spec fn allows(self, direction: Direction) -> bool {
        match direction {
            Direction::Horizontal => self.allow_horizontal,
            Direction::HorizontalReverse => self.allow_horizontal && self.allow_reverse,
            Direction::Vertical => self.allow_vertical,
            Direction::VerticalReverse => self.allow_vertical && self.allow_reverse,
            Direction::DiagonalDown | Direction::DiagonalUp => self.allow_diagonal,
            Direction::DiagonalDownReverse | Direction::DiagonalUpReverse => self.allow_diagonal
                && self.allow_reverse,
        }
    }

    /// The horizontal directions admitted, forward first.
    pub open spec fn horizontal_part(self) -> Seq<Direction> {
        if !self.allow_horizontal {
            seq![]
        } else if self.allow_reverse {
            seq![Direction::Horizontal, Direction::HorizontalReverse]
        } else {
            seq![Direction::Horizontal]
        }
    }

    /// The vertical directions admitted, forward first.
    pub open spec fn vertical_part(self) -> Seq<Direction> {
        if !self.allow_vertical {
            seq![]
        } else if self.allow_reverse {
            seq![Direction::Vertical, Direction::VerticalReverse]
        } else {
            seq![Direction::Vertical]
        }
    }

    /// The diagonal directions admitted: the two forward ones, then the two
    /// reverse ones.
    pub open spec fn diagonal_part(self) -> Seq<Direction> {
        if !self.allow_diagonal {
            seq![]
        } else if self.allow_reverse {
            seq![
                Direction::DiagonalDown,
                Direction::DiagonalUp,
                Direction::DiagonalDownReverse,
                Direction::DiagonalUpReverse,
            ]
        } else {
            seq![Direction::DiagonalDown, Direction::DiagonalUp]
        }
    }

    /// The admitted directions in their fixed order: horizontal, vertical,
    /// diagonal.
    pub open spec fn allowed(self) -> Seq<Direction> {
        self.horizontal_part() + self.vertical_part() + self.diagonal_part()
    }

    /// How many directions are admitted.
    pub open spec fn allowed_count(self) -> nat {
        let per_axis: nat = if self.allow_reverse {
            2
        } else {
            1
        };
        ((if self.allow_horizontal {
            per_axis
        } else {
            0
        }) + (if self.allow_vertical {
            per_axis
        } else {
            0
        }) + (if self.allow_diagonal {
            2 * per_axis
        } else {
            0
        })) as nat
    }

    /// The easy tier: horizontal and vertical only, never backwards.
    pub open spec fn easy_tier() -> Difficulty {
        Difficulty {
            allow_horizontal: true,
            allow_vertical: true,
            allow_diagonal: false,
            allow_reverse: false,
        }
    }

    /// The medium tier: horizontal, vertical and diagonal, never backwards.
    pub open spec fn medium_tier() -> Difficulty {
        Difficulty {
            allow_horizontal: true,
            allow_vertical: true,
            allow_diagonal: true,
            allow_reverse: false,
        }
    }

    /// The hard tier: every direction, backwards included.
    pub open spec fn hard_tier() -> Difficulty {
        Difficulty {
            allow_horizontal: true,
            allow_vertical: true,
            allow_diagonal: true,
            allow_reverse: true,
        }
    }

    /// Easy: horizontal and vertical only, never backwards.
    pub fn easy() -> (d: Self)
        ensures
            d == Difficulty::easy_tier(),
            d.allowed().len() == 2,
    {
        proof {
            lemma_allowed_exactly_the_admitted(Difficulty::easy_tier());
        }
        Self {
            allow_horizontal: true,
            allow_vertical: true,
            allow_diagonal: false,
            allow_reverse: false,
        }
    }

    /// Medium: horizontal, vertical and diagonal, never backwards.
    pub fn medium() -> (d: Self)
        ensures
            d == Difficulty::medium_tier(),
            d.allowed().len() == 4,
    {
        proof {
            lemma_allowed_exactly_the_admitted(Difficulty::medium_tier());
        }
        Self {
            allow_horizontal: true,
            allow_vertical: true,
            allow_diagonal: true,
            allow_reverse: false,
        }
    }

    /// Hard: every direction, backwards included.
    pub fn hard() -> (d: Self)
        ensures
            d == Difficulty::hard_tier(),
            d.allowed().len() == 8,
    {
        proof {
            lemma_allowed_exactly_the_admitted(Difficulty::hard_tier());
        }
        Self {
            allow_horizontal: true,
            allow_vertical: true,
            allow_diagonal: true,
            allow_reverse: true,
        }
    }

    /// Returns the directions this difficulty admits, in the fixed order
    /// Horizontal, HorizontalReverse, Vertical, VerticalReverse,
    /// DiagonalDown, DiagonalUp, DiagonalDownReverse, DiagonalUpReverse.
    pub fn allowed_directions(&self) -> (directions: Vec<Direction>)
        ensures
            directions@ == self.allowed(),
            directions@.len() == self.allowed_count(),
            directions@.no_duplicates(),
            forall|d: Direction| directions@.contains(d) <==> self.allows(d),
    {
        let mut directions: Vec<Direction> = Vec::new();

        if self.allow_horizontal {
            directions.push(Direction::Horizontal);
            if self.allow_reverse {
                directions.push(Direction::HorizontalReverse);
            }
        }
        assert(directions@ == self.horizontal_part());

        if self.allow_vertical {
            directions.push(Direction::Vertical);
            if self.allow_reverse {
                directions.push(Direction::VerticalReverse);
            }
        }
        assert(directions@ == self.horizontal_part() + self.vertical_part());

        if self.allow_diagonal {
            directions.push(Direction::DiagonalDown);
            directions.push(Direction::DiagonalUp);
            if self.allow_reverse {
                directions.push(Direction::DiagonalDownReverse);
                directions.push(Direction::DiagonalUpReverse);
            }
        }
        assert(directions@ == self.allowed());
        proof {
            lemma_allowed_exactly_the_admitted(*self);
        }
        directions
    }
}

/// The admitted directions are listed once each, and a direction is listed
/// exactly when the difficulty admits it.
pub proof fn lemma_allowed_exactly_the_admitted(difficulty: Difficulty)
    ensures
        difficulty.allowed().len() == difficulty.allowed_count(),
        difficulty.allowed().no_duplicates(),
        forall|d: Direction| difficulty.allowed().contains(d) <==> difficulty.allows(d),
        difficulty.allowed().len() == 0 <==> !difficulty.allow_horizontal
            && !difficulty.allow_vertical && !difficulty.allow_diagonal,
{
    let h = difficulty.horizontal_part().len() as int;
    let v = difficulty.vertical_part().len() as int;
    let all = difficulty.allowed();
    assert forall|d: Direction| all.contains(d) <==> difficulty.allows(d) by {
        if difficulty.allows(d) {
            let k: int = match d {
                Direction::Horizontal => 0,
                Direction::HorizontalReverse => 1,
                Direction::Vertical => h,
                Direction::VerticalReverse => h + 1,
                Direction::DiagonalDown => h + v,
                Direction::DiagonalUp => h + v + 1,
                Direction::DiagonalDownReverse => h + v + 2,
                Direction::DiagonalUpReverse => h + v + 3,
            };
            assert(all[k] == d);
        }
    }
}

} // verus!
