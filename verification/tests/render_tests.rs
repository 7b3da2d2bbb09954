use tracker::render::{render_lines_message, render_lines_reply};
use tracker::update::{generate_tracking_output, OutputEntry};

#[test]
fn short_output_fits_one_embed() {
    let lines = vec![String::from("alpha"), String::from("beta")];
    let msg = render_lines_message("hi", lines, Some(String::from("Title")));
    assert_eq!(msg.content.as_deref(), Some("hi"));
    assert_eq!(msg.embeds.len(), 1);
    assert_eq!(msg.embeds[0].title.as_deref(), Some("Title"));
    assert_eq!(msg.embeds[0].description, "beta\nalpha");
}

#[test]
fn empty_output_renders_an_empty_embed() {
    let msg = render_lines_message("", Vec::new(), None);
    assert_eq!(msg.content.as_deref(), Some(""));
    assert_eq!(msg.embeds.len(), 1);
    assert_eq!(msg.embeds[0].description, "");
    assert_eq!(msg.embeds[0].title, None);
}

#[test]
fn oversized_output_splits_half_by_count() {
    // Three lines of 2500 characters: with the newlines that is 7503, over
    // the 6001-character budget (no title), so the longest-sorted run sheds
    // one line; 5002 is still over one embed's 4097, so it splits 1 + 1.
    let lines = vec![
        "a".repeat(2500),
        "b".repeat(2500),
        "c".repeat(2500),
    ];
    let msg = render_lines_message("ping", lines, None);
    // One line was shed to meet the budget, so the content reports it.
    assert_eq!(
        msg.content.as_deref(),
        Some(
            "ping\nThis output has been truncated by 1 lines (2501 characters) because of Discord limits."
        )
    );
    assert_eq!(msg.embeds.len(), 2);
    assert_eq!(msg.embeds[0].description, "a".repeat(2500));
    assert_eq!(msg.embeds[1].description, "b".repeat(2500));
}

#[test]
fn overlong_line_dropped_with_notice() {
    // The 5000-character line can never fit an embed and is dropped first;
    // the budget then sheds one of the 2500-character lines. The notice
    // counts both dropped lines and all their characters, joining newlines
    // included (5001 + 2501).
    let lines = vec![
        "x".repeat(5000),
        "a".repeat(2500),
        "b".repeat(2500),
        "c".repeat(2500),
    ];
    let msg = render_lines_message("ping", lines, None);
    assert_eq!(msg.embeds.len(), 2);
    assert_eq!(
        msg.content.as_deref(),
        Some(
            "ping\nThis output has been truncated by 2 lines (7502 characters) because of Discord limits."
        )
    );
}

#[test]
fn overlong_line_alone_still_gets_a_notice() {
    // A single over-long line leaves nothing to render, yet the drop is
    // reported even though the output stays in one embed.
    let msg = render_lines_message("", vec!["x".repeat(4200)], None);
    assert_eq!(msg.embeds.len(), 1);
    assert_eq!(msg.embeds[0].description, "");
    assert_eq!(
        msg.content.as_deref(),
        Some(
            "\nThis output has been truncated by 1 lines (4201 characters) because of Discord limits."
        )
    );
}

#[test]
fn reply_has_no_content_unless_truncated() {
    let reply = render_lines_reply(vec![String::from("one")], Some(String::from("T")));
    assert_eq!(reply.content, None);
    assert_eq!(reply.embeds.len(), 1);
    assert_eq!(reply.embeds[0].description, "one");

    let truncated = render_lines_reply(
        vec![
            "x".repeat(5000),
            "a".repeat(2500),
            "b".repeat(2500),
            "c".repeat(2500),
        ],
        None,
    );
    assert_eq!(
        truncated.content.as_deref(),
        Some("This output has been truncated by 2 lines (7502 characters) because of Discord limits.")
    );
    assert_eq!(truncated.embeds.len(), 2);
}

#[test]
fn stable_length_sort_keeps_line_order() {
    // Equal-length lines keep their order in the joined description.
    let lines = vec![String::from("bb"), String::from("aa"), String::from("c")];
    let msg = render_lines_message("", lines, None);
    assert_eq!(msg.embeds[0].description, "c\nbb\naa");
}

#[test]
fn tracking_output_lines_and_mentions() {
    let entries = vec![OutputEntry {
        username: String::from("someone"),
        game_name: String::from("Somewhere"),
        game: 12,
        server: 0x0123_4567_89ab_cdef_0123_4567_89ab_cdef,
    }];
    let (created, edited) = generate_tracking_output(&entries, 42, Some(9));
    assert_eq!(created.content.as_deref(), Some("<@&9>"));
    assert_eq!(created.embeds.len(), 1);
    assert_eq!(
        created.embeds[0].title.as_deref(),
        Some("Tracking output for channel <#42>:")
    );
    assert_eq!(
        created.embeds[0].description,
        "someone: [Somewhere](http://www.roblox.com/home?placeId=12&gameId=01234567-89ab-cdef-0123-456789abcdef)"
    );
    assert_eq!(edited.content.as_deref(), Some("<@&9>"));
    assert_eq!(edited.embeds[0].description, created.embeds[0].description);

    let (created, _) = generate_tracking_output(&entries, 42, None);
    assert_eq!(created.content.as_deref(), Some(""));
}
