use amberol_glass_lyrics::app_id::{is_devel, release_id};

#[test]
fn development_builds_are_told_by_their_identifier() {
    for id in [
        "", "Devel", ".Devel", "io.bassi.Amberol", "io.bassi.Amberol.Devel", "io.x.Devel.Devel",
        "Develo", "xDevel",
    ] {
        assert_eq!(is_devel(id), id.ends_with("Devel"), "{}", id);
        assert_eq!(release_id(id), id.trim_end_matches(".Devel"), "{}", id);
    }
}
