//! The level-select screen's buttons: for each row of levels, one button for
//! the row's cutscene and one for each level.
use vstd::prelude::*;

verus! {

/// Side of a square button, in pixels.
pub const BUTTON_SIZE: u32 = 9;

/// Distance between neighbouring buttons, in pixels.
pub const BUTTON_STEP: u32 = 10;

/// Left edge of the first row.
pub const FIRST_ROW_X: u32 = 60;

/// Top edge of the cutscene buttons.
pub const CUTSCENE_Y: u32 = 20;

/// Most rows, and most levels in a row, that the screen lays out.
pub const MAX_ROWS: usize = 0x10_0000;

/// A clickable square, in screen pixels.
#[derive(Debug, Clone, Copy, PartialEq, Eq, Hash, Structural)]
pub struct Button {
    pub x: u32,
    pub y: u32,
    pub w: u32,
    pub h: u32,
}

#[derive(Debug, Clone, Copy, PartialEq, Eq, Hash, Structural)]
pub struct LevelButton {
    pub button: Button,
    pub row: usize,
    pub col: usize,
}

#[derive(Debug, Clone, Copy, PartialEq, Eq, Hash, Structural)]
pub struct CutsceneButton {
    pub button: Button,
    pub row: usize,
}

#[derive(Debug, Clone, Copy, PartialEq, Eq, Hash, Structural)]
pub enum AButton {
    Level(LevelButton),
    Cutscene(CutsceneButton),
}

pub struct StateLevelSelect {
    buttons: Vec<AButton>,
}

/// The square at the given corner.
pub open spec fn square(x: int, y: int) -> Button {
    Button { x: x as u32, y: y as u32, w: BUTTON_SIZE, h: BUTTON_SIZE }
}

/// The buttons of one row: the cutscene first, then the levels below it.
pub open spec fn row_buttons(row: int, levels: int) -> Seq<AButton> {
    let x = FIRST_ROW_X + row * BUTTON_STEP;
    seq![AButton::Cutscene(CutsceneButton { button: square(x, CUTSCENE_Y as int), row: row as usize })]
        + Seq::new(
        levels as nat,
        |col: int|
            AButton::Level(
                LevelButton {
                    button: square(x, CUTSCENE_Y + (col + 1) * BUTTON_STEP),
                    row: row as usize,
                    col: col as usize,
                },
            ),
    )
}

/// The buttons of the first `n` rows, row after row.
pub open spec fn layout(rows: Seq<usize>, n: int) -> Seq<AButton>
    decreases n,
{
    if n <= 0 {
        Seq::empty()
    } else {
        layout(rows, n - 1) + row_buttons(n - 1, rows[n - 1] as int)
    }
}

impl AButton {
    pub open spec fn button_of(self) -> Button {
        match self {
            AButton::Level(l) => l.button,
            AButton::Cutscene(c) => c.button,
        }
    }

    /// The same button with its square replaced.
    pub open spec fn with_button(self, b: Button) -> AButton {
        match self {
            AButton::Level(l) => AButton::Level(LevelButton { button: b, ..l }),
            AButton::Cutscene(c) => AButton::Cutscene(CutsceneButton { button: b, ..c }),
        }
    }

    pub fn get_button(&self) -> (r: &Button)
        ensures
            *r == self.button_of(),
    {
        match self {
            AButton::Level(l) => &l.button,
            AButton::Cutscene(c) => &c.button,
        }
    }

    pub fn get_button_mut(&mut self) -> (r: &mut Button)
        ensures
            *r == old(self).button_of(),
            *final(self) == old(self).with_button(*final(r)),
    {
        match self {
            AButton::Level(l) => &mut l.button,
            AButton::Cutscene(c) => &mut c.button,
        }
    }
}

impl StateLevelSelect {
    pub closed spec fn view(&self) -> Seq<AButton> {
        self.buttons@
    }

    /// Lays out the buttons for rows holding `rows[i]` levels each.
    pub fn new(rows: &Vec<usize>) -> (r: StateLevelSelect)
        requires
            rows.len() <= MAX_ROWS,
            forall|i: int| 0 <= i < rows.len() ==> #[trigger] rows[i] <= MAX_ROWS,
        ensures
            r@ == layout(rows@, rows.len() as int),
    {
        let mut buttons: Vec<AButton> = Vec::new();
        let mut row: usize = 0;
        while row < rows.len()
            invariant
                row <= rows.len(),
                rows.len() <= MAX_ROWS,
                forall|i: int| 0 <= i < rows.len() ==> #[trigger] rows[i] <= MAX_ROWS,
                buttons@ == layout(rows@, row as int),
            decreases rows.len() - row,
        {
            let bx: u32 = FIRST_ROW_X + (row as u32) * BUTTON_STEP;
            let ghost before = buttons@;
            buttons.push(
                AButton::Cutscene(
                    CutsceneButton {
                        button: Button { x: bx, y: CUTSCENE_Y, w: BUTTON_SIZE, h: BUTTON_SIZE },
                        row,
                    },
                ),
            );
            let levels = rows[row];
            let mut col: usize = 0;
            while col < levels
                invariant
                    row < rows.len(),
                    levels == rows[row as int],
                    levels <= MAX_ROWS,
                    col <= levels,
                    bx == FIRST_ROW_X + row * BUTTON_STEP,
                    buttons@ == before + row_buttons(row as int, col as int),
                decreases levels - col,
            {
                let by: u32 = CUTSCENE_Y + ((col as u32) + 1) * BUTTON_STEP;
                buttons.push(
                    AButton::Level(
                        LevelButton {
                            button: Button { x: bx, y: by, w: BUTTON_SIZE, h: BUTTON_SIZE },
                            row,
                            col,
                        },
                    ),
                );
                proof {
                    assert(row_buttons(row as int, col + 1) =~= row_buttons(row as int, col as int).push(
                        buttons@.last(),
                    ));
                    assert(buttons@ =~= before + row_buttons(row as int, col + 1));
                }
                col = col + 1;
            }
            proof {
                assert(layout(rows@, row + 1) == layout(rows@, row as int) + row_buttons(row as int, rows[row as int] as int));
            }
            row = row + 1;
        }
        StateLevelSelect { buttons }
    }

    pub fn buttons(&self) -> (r: &Vec<AButton>)
        ensures
            r@ == self@,
    {
        &self.buttons
    }
}

} // verus!
