use penguin_game::launch::{
    bundled_demo_for, demo_source_for_arg, launch_from_url_fragment, DemoSource, InputDemo,
    LevelSource,
};

#[test]
fn level_names() {
    let names: Vec<String> = LevelSource::all().iter().map(|l| l.name()).collect();
    assert_eq!(names, vec!["default", "new", "big"]);
}

#[test]
fn default_demo_argument_follows_the_level() {
    assert_eq!(demo_source_for_arg(b"@default".to_vec(), LevelSource::Default), DemoSource::Default);
    assert_eq!(demo_source_for_arg(b"@default".to_vec(), LevelSource::New), DemoSource::NewLevelDemo);
    assert_eq!(demo_source_for_arg(b"@default".to_vec(), LevelSource::Big), DemoSource::Empty);
    assert_eq!(
        demo_source_for_arg(b"my.demo".to_vec(), LevelSource::Big),
        DemoSource::File(b"my.demo".to_vec())
    );
    assert_eq!(bundled_demo_for(LevelSource::New), DemoSource::NewLevelDemo);
}

#[test]
fn url_fragment_chooses_level_and_demo() {
    assert_eq!(launch_from_url_fragment(""), (LevelSource::Default, None));
    assert_eq!(launch_from_url_fragment("#big"), (LevelSource::Big, None));
    assert_eq!(
        launch_from_url_fragment("#new-demo"),
        (LevelSource::New, Some(InputDemo { source: DemoSource::NewLevelDemo, skip_until_update: 0 }))
    );
    assert_eq!(
        launch_from_url_fragment("#demo"),
        (LevelSource::Default, Some(InputDemo { source: DemoSource::Default, skip_until_update: 0 }))
    );
    assert_eq!(launch_from_url_fragment("#big-new"), (LevelSource::New, None));
}
