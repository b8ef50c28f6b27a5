use mtrd::topology::{BackgroundFieldsError, TopologyBackgroundOptions};

#[test]
fn reads_a_coloured_background() {
    assert_eq!(
        TopologyBackgroundOptions::from_fields(Some("#fff".to_owned()), None),
        Ok(TopologyBackgroundOptions::Color { color: "#fff".to_owned() })
    );
    assert_eq!(
        TopologyBackgroundOptions::from_fields(Some("#fff".to_owned()), Some(false)),
        Ok(TopologyBackgroundOptions::Color { color: "#fff".to_owned() })
    );
}

#[test]
fn reads_a_transparent_background() {
    assert_eq!(
        TopologyBackgroundOptions::from_fields(None, Some(true)),
        Ok(TopologyBackgroundOptions::Transparent)
    );
}

#[test]
fn rejects_background_fields_that_describe_nothing() {
    assert_eq!(
        TopologyBackgroundOptions::from_fields(None, Some(false)),
        Err(BackgroundFieldsError::TransparentFalse)
    );
    assert_eq!(
        TopologyBackgroundOptions::from_fields(Some("red".to_owned()), Some(true)),
        Err(BackgroundFieldsError::ColorConflictsWithTransparent)
    );
    assert_eq!(
        TopologyBackgroundOptions::from_fields(None, None),
        Err(BackgroundFieldsError::Missing)
    );
}

#[test]
fn names_each_background_error() {
    assert_eq!(BackgroundFieldsError::TransparentFalse.message(), "transparent must be true");
    assert_eq!(
        BackgroundFieldsError::ColorConflictsWithTransparent.message(),
        "background color conflicts with transparent: true"
    );
    assert_eq!(
        BackgroundFieldsError::Missing.message(),
        "background must contain color or transparent: true"
    );
}

#[test]
fn writes_a_background_as_one_field() {
    let color = TopologyBackgroundOptions::Color { color: "navy".to_owned() };
    assert_eq!(color.to_fields(), (Some("navy".to_owned()), None));
    assert_eq!(TopologyBackgroundOptions::Transparent.to_fields(), (None, Some(true)));
}

#[test]
fn reads_back_what_it_writes() {
    for background in [
        TopologyBackgroundOptions::Color { color: "navy".to_owned() },
        TopologyBackgroundOptions::Transparent,
    ] {
        let (color, transparent) = background.to_fields();
        assert_eq!(TopologyBackgroundOptions::from_fields(color, transparent), Ok(background));
    }
}
