use rent::config::Action;
use rent::deck::{Deck, Effect};
use rent::img::Img;
use rent::slide::load;

fn text_deck(n: usize) -> Deck {
    let src: Vec<String> = (0..n).map(|i| format!("slide {i}")).collect();
    let slides = load(&src.join("\n\n")).unwrap();
    let images = (0..n).map(|_| None).collect();
    Deck::new(slides, images)
}

#[test]
fn advance_moves_and_clamps() {
    let mut d = text_deck(3);
    assert_eq!(d.index(), 0);
    assert!(!d.advance(-1));
    assert_eq!(d.index(), 0);
    assert!(d.advance(1));
    assert_eq!(d.index(), 1);
    assert!(d.advance(5));
    assert_eq!(d.index(), 2);
    assert!(!d.advance(1));
    assert!(d.advance(i32::MIN));
    assert_eq!(d.index(), 0);
    assert!(d.advance(i32::MAX));
    assert_eq!(d.index(), 2);
}

#[test]
fn forward_then_back_returns() {
    let mut d = text_deck(10);
    d.advance(3);
    d.advance(4);
    d.advance(-4);
    assert_eq!(d.index(), 3);
}

#[test]
fn act_reports_effects() {
    let mut d = text_deck(2);
    assert_eq!(d.act(Action::Advance(1)), Effect::Redraw);
    assert_eq!(d.act(Action::Advance(1)), Effect::Nothing);
    assert_eq!(d.act(Action::Reload), Effect::Reload);
    assert_eq!(d.act(Action::Quit), Effect::Quit);
    assert_eq!(d.index(), 1);
}

#[test]
fn reload_keeps_or_clamps_position() {
    let mut d = text_deck(5);
    d.advance(4);
    let slides = load("a\n\nb\n").unwrap();
    d.reload(slides, vec![None, None]);
    assert_eq!(d.index(), 1);
    assert_eq!(d.len(), 2);
    assert_eq!(d.current_lines(), &vec!["b".to_string()]);
    let slides = load("x\n\ny\n\nz\n").unwrap();
    d.reload(slides, vec![None, None, None]);
    assert_eq!(d.index(), 1);
    assert_eq!(d.current_lines(), &vec!["y".to_string()]);
}

#[test]
fn draw_image_only_for_image_slides() {
    let slides = load("@pic.ff\n\ntext\n").unwrap();
    let mut ff = b"farbfeld".to_vec();
    ff.extend_from_slice(&1u32.to_be_bytes());
    ff.extend_from_slice(&1u32.to_be_bytes());
    ff.extend_from_slice(&[0, 0, 0, 0, 0, 0, 0xFF, 0xFF]);
    let img = Img::load("pic.ff", &ff).unwrap();
    let mut d = Deck::new(slides, vec![Some(img), None]);
    let mut frame = vec![0xFFFFFFu32; 4];
    assert!(d.draw_image(&mut frame, 2, 2, 2, 2));
    assert_eq!(frame, vec![0; 4]);
    d.resized();
    d.advance(1);
    let mut frame = vec![0xFFFFFFu32; 4];
    assert!(!d.draw_image(&mut frame, 2, 2, 2, 2));
    assert_eq!(frame, vec![0xFFFFFF; 4]);
    assert_eq!(d.current_lines(), &vec!["text".to_string()]);
}
