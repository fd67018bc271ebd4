use crop_circles::levelselect::{AButton, Button, CutsceneButton, LevelButton, StateLevelSelect};

fn square(x: u32, y: u32) -> Button {
    Button { x, y, w: 9, h: 9 }
}

#[test]
fn rows_get_a_cutscene_then_their_levels() {
    let s = StateLevelSelect::new(&vec![2, 1]);
    let want = vec![
        AButton::Cutscene(CutsceneButton { button: square(60, 20), row: 0 }),
        AButton::Level(LevelButton { button: square(60, 30), row: 0, col: 0 }),
        AButton::Level(LevelButton { button: square(60, 40), row: 0, col: 1 }),
        AButton::Cutscene(CutsceneButton { button: square(70, 20), row: 1 }),
        AButton::Level(LevelButton { button: square(70, 30), row: 1, col: 0 }),
    ];
    assert_eq!(s.buttons(), &want);
}

#[test]
fn no_rows_no_buttons() {
    let s = StateLevelSelect::new(&Vec::new());
    assert!(s.buttons().is_empty());
}

#[test]
fn button_accessors_reach_the_square() {
    let mut b = AButton::Level(LevelButton { button: square(1, 2), row: 3, col: 4 });
    assert_eq!(*b.get_button(), square(1, 2));
    b.get_button_mut().x = 7;
    assert_eq!(b, AButton::Level(LevelButton { button: square(7, 2), row: 3, col: 4 }));
    let c = AButton::Cutscene(CutsceneButton { button: square(5, 6), row: 0 });
    assert_eq!(*c.get_button(), square(5, 6));
}
