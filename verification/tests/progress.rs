use beamup::progress::{clear_progress_bar, set_progress_bar, LogRoute, ProgressWriter};

#[test]
fn log_output_goes_to_the_bar() {
    let mut w: ProgressWriter<u32> = ProgressWriter::new();
    assert!(matches!(w.route("a\n"), LogRoute::Stderr));
    set_progress_bar(&mut w, 7);
    assert_eq!(w.bar(), Some(&7));
    assert!(matches!(w.route("a\nb\n\n"), LogRoute::Bar(line) if line == "a\nb"));
    assert!(matches!(w.route("\n"), LogRoute::Nowhere));
    clear_progress_bar(&mut w);
    assert_eq!(w.bar(), None);
    assert!(matches!(w.route("\n"), LogRoute::Stderr));
}
