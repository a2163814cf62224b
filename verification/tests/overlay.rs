use herdr_preview::classify::Target;
use herdr_preview::hint::HintEntry;
use herdr_preview::overlay::{key_press, overlay_choice, render_overlay, KeyPress, OverlayChoice};

const HOME: &str = "\x1b[H";
const DIM: &str = "\x1b[2;90m";
const RESET: &str = "\x1b[0m";
const CLR: &str = "\x1b[K";
const KEY: &str = "\x1b[0;1;30;48;2;255;253;1m";
const TOK: &str = "\x1b[0;38;2;255;253;1m";
const LEGEND: &str = "\x1b[1;30;48;2;255;253;1m";

fn entry(key: char, start: usize, raw: &str) -> HintEntry {
    HintEntry {
        key,
        start,
        end: start + raw.len(),
        raw: raw.to_string(),
        target: Target::File { path: format!("/r/{raw}"), open_spec: raw.to_string(), ambiguous: false },
    }
}

fn row(text: &str) -> String {
    format!("{DIM}{text}{RESET}{CLR}\n")
}

fn legend(text: &str) -> String {
    format!("{LEGEND}{text}{RESET}{CLR}")
}

#[test]
fn short_text_sits_at_the_bottom_with_tokens_painted() {
    let entries = vec![entry('a', 4, "a.rs")];
    let frame = render_overlay(&entries, "see a.rs\nline2\n", 4, 80);
    let painted = format!("see {KEY}a{RESET}{TOK}.rs{RESET}{DIM}");
    let expected = format!(
        "{HOME}{}{}{}{}",
        row(""),
        row(""),
        row(&painted),
        legend(" hint · 1 path(s) · letter opens · q/Esc cancel")
    );
    assert_eq!(frame, expected);
    assert!(!frame.ends_with('\n'));
}

#[test]
fn tall_text_keeps_its_bottom_rows() {
    let snap: String = (0..10).map(|i| format!("line{i}\n")).collect();
    // `line2` starts at byte 12: it is scrolled off, so it is not painted.
    let entries = vec![entry('a', 12, "line2"), entry('s', 48, "line8")];
    let frame = render_overlay(&entries, &snap, 4, 80);
    let expected = format!(
        "{HOME}{}{}{}{}",
        row("line6"),
        row("line7"),
        row(&format!("{KEY}s{RESET}{TOK}ine8{RESET}{DIM}")),
        legend(" hint · 2 path(s) · letter opens · q/Esc cancel")
    );
    assert_eq!(frame, expected);
}

#[test]
fn later_tokens_in_a_row_are_painted_first() {
    let entries = vec![entry('a', 0, "a.rs"), entry('s', 5, "b.rs")];
    let frame = render_overlay(&entries, "a.rs b.rs\n$ \n", 2, 80);
    let painted = format!(
        "{KEY}a{RESET}{TOK}.rs{RESET}{DIM} {KEY}s{RESET}{TOK}.rs{RESET}{DIM}"
    );
    assert_eq!(
        frame,
        format!("{HOME}{}{}", row(&painted), legend(" hint · 2 path(s) · letter opens · q/Esc cancel"))
    );
}

#[test]
fn rows_and_legend_are_cut_to_the_width() {
    let long = "x".repeat(30);
    let frame = render_overlay(&vec![], &format!("{long}\n$ \n"), 2, 5);
    let cut: String = " hint · 0 path(s) · letter opens · q/Esc cancel".chars().take(20).collect();
    assert_eq!(frame, format!("{HOME}{}{}", row(&"x".repeat(20)), legend(&cut)));
}

#[test]
fn escape_sequences_take_no_cells() {
    // A token painted near the end of a narrow row keeps its closing styles.
    // The row is cut after the twentieth cell, styles included up to there.
    let text = format!("{}b.rs\n$ \n", "y".repeat(18));
    let entries = vec![entry('a', 18, "b.rs")];
    let frame = render_overlay(&entries, &text, 2, 20);
    let painted = format!("{}{KEY}a{RESET}{TOK}.", "y".repeat(18));
    assert!(frame.starts_with(&format!("{HOME}{}", row(&painted))));
}

#[test]
fn keys_pick_cancel_or_wait() {
    let entries = vec![entry('a', 0, "a.rs"), entry('s', 5, "b.rs")];
    assert_eq!(overlay_choice(&entries, KeyPress::Byte(b's')), Some(OverlayChoice::Pick(1)));
    assert_eq!(overlay_choice(&entries, KeyPress::Byte(b'q')), Some(OverlayChoice::Cancel));
    assert_eq!(overlay_choice(&entries, KeyPress::Byte(b'Q')), Some(OverlayChoice::Cancel));
    assert_eq!(overlay_choice(&entries, KeyPress::Byte(b'z')), None);
    assert_eq!(overlay_choice(&entries, KeyPress::Cancel), Some(OverlayChoice::Cancel));
    assert_eq!(overlay_choice(&entries, KeyPress::Ignore), None);
}

#[test]
fn bare_escape_cancels_and_sequences_are_ignored() {
    assert_eq!(key_press(b'a', false), KeyPress::Byte(b'a'));
    assert_eq!(key_press(0x1b, false), KeyPress::Cancel);
    assert_eq!(key_press(0x1b, true), KeyPress::Ignore);
}

#[test]
fn frame_breaks_lines_only_between_rows() {
    let entries = vec![entry('a', 4, "a.rs"), entry('s', 13, "b.rs")];
    for rows in [1u16, 2, 3, 7, 40] {
        let frame = render_overlay(&entries, "see a.rs\nand b.rs\n\nlast\n", rows, 30);
        let breaks = frame.matches('\n').count();
        assert_eq!(breaks, rows.max(2) as usize - 1);
        assert!(frame.ends_with(CLR));
    }
}
