use reword::commands::{count, progress_bar};
use reword::term::Style;
use reword::viz::{bar, columns, strip, Paint, Segment};

fn seg(n: usize, ch: char) -> Segment {
    Segment {
        n,
        ch,
        paint: Paint::Plain,
    }
}

#[test]
fn bar_fills_exactly_and_keeps_small_segments_visible() {
    let style = Style { on: false };
    let b = bar(style, &[seg(97, '█'), seg(1, '▓')], 100, 20);
    assert_eq!(b.chars().count(), 20);
    assert!(b.contains('▓'));
    assert_eq!(b.chars().filter(|c| *c == '░').count(), 0);
    let b = bar(style, &[seg(3, '█')], 12, 24);
    assert_eq!(b, format!("{}{}", "█".repeat(6), "░".repeat(18)));
    assert_eq!(bar(style, &[seg(0, '█')], 0, 5), "░░░░░");
}

#[test]
fn strip_and_columns_have_expected_shape() {
    let style = Style { on: false };
    assert_eq!(strip(style, &[0, 1, 2]), "▁▄█");
    let lines = columns(
        style,
        &[0, 2, 1],
        &vec!["a".into(), "b".into(), "c".into()],
        2,
        "",
        &vec![Paint::Plain; 3],
    );
    assert_eq!(lines.len(), 4);
    assert_eq!(lines[0], "2 ┤     ██");
    assert_eq!(lines[1], "  ┤     ██  ██");
    assert_eq!(lines[3], "    a   b   c");
}

#[test]
fn styled_bar_and_counts() {
    let on = Style { on: true };
    let off = Style { on: false };
    assert_eq!(bar(on, &[seg(1, '█')], 2, 2), "█\x1b[2m░\x1b[0m");
    assert_eq!(progress_bar(off, 10, 5, 2, 10), "███▓▓░░░░░");
    assert_eq!(count(off, 0, 3, Paint::Yellow), "  0");
    assert_eq!(count(on, 4, 3, Paint::Yellow), "\x1b[33m  4\x1b[0m");
    assert_eq!(count(on, 0, 2, Paint::Yellow), "\x1b[2m 0\x1b[0m");
}

#[test]
fn every_nonzero_segment_gets_a_cell_when_cells_suffice() {
    let style = Style { on: false };
    let b = bar(style, &[seg(1, 'a'), seg(1, 'b'), seg(0, 'z'), seg(1000, 'c')], 1002, 3);
    assert_eq!(b, "abc");
    let b = bar(style, &[seg(500, 'a'), seg(1, 'b'), seg(500, 'c')], 1001, 5);
    assert_eq!(b.chars().count(), 5);
    assert!(b.contains('a') && b.contains('b') && b.contains('c'));
}
