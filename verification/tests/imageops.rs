use lost_commander::imageops::{
    at_least_one, fold_crop, is_lossy, keep_aspect, losses, refuses, Carries, Crop, Edit,
    Transform, Turn, ICO_MAX,
};

#[test]
fn quarter_turns_compose_rather_than_accumulate() {
    let mut transform = Transform::default();
    transform.turn_right();
    transform.turn_right();
    assert_eq!(transform.turn, Turn::Half);
    transform.turn_right();
    transform.turn_right();
    assert_eq!(
        transform.turn,
        Turn::Upright,
        "four times round is where it started"
    );

    transform.turn_right();
    transform.turn_left();
    assert_eq!(transform.turn, Turn::Upright);
    transform.turn_left();
    assert_eq!(transform.turn, Turn::Left);
}

#[test]
fn a_quarter_turn_puts_the_width_where_the_height_was() {
    let landscape = (400, 300);
    assert_eq!(
        Transform {
            turn: Turn::Right,
            ..Default::default()
        }
        .size_of(landscape),
        (300, 400)
    );
    assert_eq!(
        Transform {
            turn: Turn::Left,
            ..Default::default()
        }
        .size_of(landscape),
        (300, 400)
    );
    assert_eq!(
        Transform {
            turn: Turn::Half,
            ..Default::default()
        }
        .size_of(landscape),
        landscape
    );
}

#[test]
fn flipping_means_flipping_what_is_on_screen() {
    // With a quarter turn in effect the screen's left-to-right is the
    // source's top-to-bottom, so the flip is recorded as the other one.
    // A button that flips the right way until you rotate is worse than
    // no button.
    let mut upright = Transform::default();
    upright.flip_horizontal();
    assert!(upright.flip_h && !upright.flip_v);

    let mut turned = Transform {
        turn: Turn::Right,
        ..Default::default()
    };
    turned.flip_horizontal();
    assert!(
        turned.flip_v && !turned.flip_h,
        "the source flips the other way"
    );

    let mut half = Transform {
        turn: Turn::Half,
        ..Default::default()
    };
    half.flip_horizontal();
    assert!(half.flip_h, "a half turn does not swap the axes");

    // And twice is none, whatever the turn.
    for turn in [Turn::Upright, Turn::Right, Turn::Half, Turn::Left] {
        let mut transform = Transform {
            turn,
            ..Default::default()
        };
        transform.flip_horizontal();
        transform.flip_horizontal();
        assert!(!transform.flip_h, "{turn:?}");
        assert!(!transform.flip_v, "{turn:?}");
    }
}

#[test]
fn a_crop_is_trimmed_to_the_picture_and_never_to_nothing() {
    let size = (100, 80);
    let inside = Crop {
        x: 10,
        y: 10,
        width: 20,
        height: 20,
    };
    assert_eq!(inside.clamped(size), Some(inside));

    // Hanging off the right and the bottom.
    assert_eq!(
        Crop {
            x: 90,
            y: 70,
            width: 50,
            height: 50
        }
        .clamped(size),
        Some(Crop {
            x: 90,
            y: 70,
            width: 10,
            height: 10
        })
    );

    // Entirely outside, and a zero-width drag: neither is a crop.
    assert_eq!(
        Crop {
            x: 100,
            y: 0,
            width: 10,
            height: 10
        }
        .clamped(size),
        None
    );
    assert_eq!(
        Crop {
            x: 10,
            y: 10,
            width: 0,
            height: 5
        }
        .clamped(size),
        None
    );

    assert!(Crop::whole(size).is_whole(size));
    assert!(!inside.is_whole(size));
}

#[test]
fn a_crop_of_the_whole_view_is_the_crop_that_was_already_there() {
    // The property that matters: whatever has been done to the picture,
    // dragging a rectangle over the entire thing on screen must come back
    // as exactly the crop already in effect. If it does not, an existing
    // crop jumps the moment anything is rotated.
    let source = (400, 300);
    for base in [
        Crop::whole(source),
        Crop {
            x: 40,
            y: 30,
            width: 200,
            height: 100,
        },
    ] {
        for turn in [Turn::Upright, Turn::Right, Turn::Half, Turn::Left] {
            for flip_h in [false, true] {
                for flip_v in [false, true] {
                    let transform = Transform {
                        turn,
                        flip_h,
                        flip_v,
                    };
                    // The whole of what is on screen, in its own pixels.
                    let shown = transform.size_of((base.width, base.height));
                    let everything = Crop {
                        x: 0,
                        y: 0,
                        width: shown.0,
                        height: shown.1,
                    };
                    assert_eq!(
                        fold_crop(everything, base, transform, source),
                        Some(base),
                        "{transform:?} over {base:?}"
                    );
                }
            }
        }
    }
}

#[test]
fn a_crop_dragged_over_a_turned_picture_lands_on_the_right_corner() {
    let source = (100, 60);
    let base = Crop::whole(source);

    // Turned a quarter to the right, the picture on screen is 60x100 and
    // its top-left corner is the source's bottom-left.
    let transform = Transform {
        turn: Turn::Right,
        ..Default::default()
    };
    let top_left_on_screen = Crop {
        x: 0,
        y: 0,
        width: 10,
        height: 10,
    };
    assert_eq!(
        fold_crop(top_left_on_screen, base, transform, source),
        Some(Crop {
            x: 0,
            y: 50,
            width: 10,
            height: 10
        })
    );

    // Mirrored, the screen's left is the source's right.
    let mirrored = Transform {
        flip_h: true,
        ..Default::default()
    };
    assert_eq!(
        fold_crop(top_left_on_screen, base, mirrored, source),
        Some(Crop {
            x: 90,
            y: 0,
            width: 10,
            height: 10
        })
    );
}

#[test]
fn cropping_a_crop_adds_the_corners_up() {
    let source = (400, 300);
    let base = Crop {
        x: 100,
        y: 50,
        width: 200,
        height: 100,
    };
    let again = Crop {
        x: 10,
        y: 20,
        width: 30,
        height: 40,
    };
    assert_eq!(
        fold_crop(again, base, Transform::default(), source),
        Some(Crop {
            x: 110,
            y: 70,
            width: 30,
            height: 40
        })
    );
}

#[test]
fn keeping_the_shape_follows_whichever_side_was_typed_into() {
    let size = (400, 300);
    assert_eq!(keep_aspect(size, (200, 300), true), (200, 150));
    assert_eq!(keep_aspect(size, (400, 150), false), (200, 150));

    // Never nothing, however extreme the panorama or the number typed.
    assert_eq!(keep_aspect((4000, 3), (1, 0), true), (1, 1));
    assert_eq!(keep_aspect(size, (0, 0), true), (1, 1));
    assert_eq!(keep_aspect((0, 0), (0, 0), true), (1, 1));
}

#[test]
fn the_size_of_a_whole_edit_is_the_operations_in_order() {
    let source = (400, 300);
    let mut edit = Edit::default();
    assert!(edit.is_identity());
    assert_eq!(edit.size_of(source), source);

    edit.crop = Some(Crop {
        x: 0,
        y: 0,
        width: 200,
        height: 100,
    });
    assert_eq!(edit.size_of(source), (200, 100));

    // The turn applies to what is left after the crop.
    edit.transform.turn_right();
    assert_eq!(edit.size_of(source), (100, 200));
    assert_eq!(edit.size_before_resize(source), (100, 200));

    // And a resize is the last word on the size.
    edit.resize = Some((50, 50));
    assert_eq!(edit.size_of(source), (50, 50));
    assert_eq!(
        edit.size_before_resize(source),
        (100, 200),
        "what the resize box counts from"
    );
    assert!(!edit.is_identity());
}

#[test]
fn what_was_done_is_said_in_words() {
    let source = (400, 300);
    assert_eq!(Edit::default().describe(source), "");

    let edit = Edit {
        crop: Some(Crop {
            x: 0,
            y: 0,
            width: 200,
            height: 100,
        }),
        transform: Transform {
            turn: Turn::Right,
            flip_h: false,
            flip_v: true,
        },
        resize: Some((50, 25)),
    };
    assert_eq!(
        edit.describe(source),
        "cropped to 200x100, turned 90°, mirrored, resized to 50x25"
    );
}

#[test]
fn what_was_done_is_named_the_way_the_button_that_did_it_was() {
    // Turn, then press Mirror. The stored flip is the vertical one - and
    // the line under the picture still has to read "mirrored", because
    // that is the button that was pressed and that is what is on screen.
    let mut transform = Transform::default();
    transform.turn_right();
    transform.flip_horizontal();
    assert!(transform.flip_v, "stored against the source");
    assert!(transform.mirrored_on_screen());
    assert!(!transform.flipped_on_screen());

    let edit = Edit {
        transform,
        ..Default::default()
    };
    assert_eq!(edit.describe((400, 300)), "turned 90°, mirrored");

    // And the same for Flip, whatever the turn.
    for turn in [Turn::Upright, Turn::Right, Turn::Half, Turn::Left] {
        let mut transform = Transform {
            turn,
            ..Default::default()
        };
        transform.flip_vertical();
        assert!(transform.flipped_on_screen(), "{turn:?}");
        assert!(!transform.mirrored_on_screen(), "{turn:?}");
    }
}

#[test]
fn saving_over_a_jpeg_costs_a_generation_and_says_so() {
    assert!(is_lossy("jpg"));
    assert!(is_lossy("JPEG"));
    assert!(is_lossy("webp"));
    assert!(!is_lossy("png"));
    assert!(!is_lossy("bmp"));
    assert!(!is_lossy(""));
}

#[test]
fn a_format_that_cannot_hold_the_picture_says_so_before_the_work() {
    // An ICO stores each dimension in one byte. Finding that out after
    // five minutes of cropping is finding it out too late.
    assert!(refuses("ico", (300, 100)).is_some());
    assert!(refuses("ICO", (100, 300)).is_some());
    assert_eq!(refuses("ico", (256, 256)), None);
    assert_eq!(refuses("png", (4000, 4000)), None);

    let complaint = refuses("ico", (300, 300)).expect("a complaint");
    assert!(complaint.contains("300x300"), "{complaint}");
    assert!(complaint.contains(".png"), "and what to do instead");
}

#[test]
fn what_a_write_leaves_behind_is_listed_before_it_happens() {
    // Nothing to say about a plain, still PNG.
    assert!(losses("png", Carries::default()).is_empty());

    // An animation becomes a still. This is the one that is easy to miss
    // afterwards and impossible to undo.
    let animated = losses(
        "gif",
        Carries {
            animated: true,
            metadata: false,
        },
    );
    assert_eq!(animated.len(), 1);
    assert!(animated[0].contains("animation"), "{animated:?}");
    // And no count. The detection stops at two frames, so any number here
    // would be the number two whatever the file actually held.
    assert!(
        !animated[0].chars().any(|c| c.is_ascii_digit()),
        "a number it never worked out: {animated:?}"
    );

    // A photograph loses its own record of itself.
    let photo = losses(
        "jpg",
        Carries {
            animated: false,
            metadata: true,
        },
    );
    assert_eq!(photo.len(), 2, "metadata and the re-encode: {photo:?}");
    assert!(photo.iter().any(|l| l.contains("EXIF")));
    assert!(photo.iter().any(|l| l.contains("generation of quality")));
}

#[test]
fn a_rectangle_is_the_same_whichever_corner_came_first() {
    let size = (200, 100);
    let wanted = Some(Crop {
        x: 50,
        y: 20,
        width: 100,
        height: 50,
    });
    assert_eq!(Crop::between((50, 20), (150, 70), size), wanted);
    assert_eq!(Crop::between((150, 70), (50, 20), size), wanted);
    assert_eq!(Crop::between((150, 20), (50, 70), size), wanted);
    // A click that does not move is not a crop.
    assert_eq!(Crop::between((50, 20), (50, 20), size), None);
}

#[test]
fn a_half_pixel_rounds_up_and_a_side_never_overflows() {
    assert_eq!(keep_aspect((2, 1), (3, 0), true), (3, 2));
    assert_eq!(keep_aspect((1, u32::MAX), (2, 0), true), (2, u32::MAX));
    assert_eq!(at_least_one(0), 1);
    assert_eq!(at_least_one(7), 7);
}

#[test]
fn turns_are_counted_in_quarters() {
    for quarters in 0..4u8 {
        assert_eq!(Turn::from_quarters(quarters).quarters(), quarters);
    }
    assert_eq!(Turn::from_quarters(5), Turn::Right);
    assert_eq!(Turn::Left.right(), Turn::Upright);
    assert_eq!(Turn::Upright.left(), Turn::Left);
    assert_eq!(Turn::Half.label(), "180°");
    assert_eq!(ICO_MAX, 256);
}

#[test]
fn a_dragged_crop_holds_what_shows_in_it() {
    // Turned left, the screen's top left is the source's top right.
    let turned = Transform {
        turn: Turn::Left,
        flip_h: false,
        flip_v: true,
    };
    let dragged = Crop {
        x: 5,
        y: 0,
        width: 10,
        height: 20,
    };
    assert_eq!(
        fold_crop(dragged, Crop::whole((100, 60)), turned, (100, 60)),
        Some(Crop {
            x: 80,
            y: 45,
            width: 20,
            height: 10
        })
    );
}
