use splatrs::names::{cameras_json_paths, sanitize_filename, scene_slug, short_path};

#[test]
fn sanitize_replaces_and_trims() {
    assert_eq!(sanitize_filename("my scene.v2"), "my-scene-v2");
    assert_eq!(sanitize_filename("--a_b--"), "a_b");
    assert_eq!(sanitize_filename("***"), "scene");
    assert_eq!(sanitize_filename(""), "scene");
    assert_eq!(sanitize_filename("Ünïcode"), "n-code");
}

#[test]
fn sanitize_is_idempotent_on_examples() {
    for name in ["my scene.v2", "--a_b--", "***", "", "truck", "a--b"] {
        let once = sanitize_filename(name);
        assert_eq!(sanitize_filename(&once), once);
    }
}

#[test]
fn scene_slug_skips_training_directories() {
    assert_eq!(scene_slug("models/truck/point_cloud/iteration_7000/point_cloud.ply"), "truck");
    assert_eq!(scene_slug("models/my garden/point_cloud.ply"), "my-garden");
    assert_eq!(scene_slug("bonsai.ply"), "bonsai");
}

#[test]
fn scene_slug_falls_back_to_scene() {
    assert_eq!(scene_slug("point_cloud/iteration_30000/point_cloud.ply"), "scene");
    assert_eq!(scene_slug("/"), "scene");
}

#[test]
fn short_path_shows_the_file_name() {
    assert_eq!(short_path("models/truck/point_cloud.ply"), "point_cloud.ply");
    assert_eq!(short_path("/"), "/");
}

#[test]
fn finds_cameras_json_in_model_ancestor() {
    let found = cameras_json_paths("/data/train/point_cloud/iteration_7000/point_cloud.ply");
    assert_eq!(found[0], "/data/train/point_cloud/iteration_7000/cameras.json");
    assert_eq!(found[1], "/data/train/point_cloud/cameras.json");
    assert_eq!(found[2], "/data/train/cameras.json");
    assert_eq!(found.last().unwrap(), "/cameras.json");
    assert_eq!(found.len(), 5);
}

#[test]
fn cameras_json_candidates_of_a_bare_file_name() {
    assert_eq!(cameras_json_paths("point_cloud.ply"), vec!["cameras.json".to_string()]);
}

use splatrs::names::{screenshot_file_name, sweep_file_name};

#[test]
fn sweep_files_are_numbered_with_two_digits() {
    assert_eq!(sweep_file_name(0, "balanced"), "00-balanced.bmp");
    assert_eq!(sweep_file_name(4, "dc-clean"), "04-dc-clean.bmp");
    assert_eq!(sweep_file_name(12, "x"), "12-x.bmp");
}

#[test]
fn screenshots_are_named_after_the_scene_and_time() {
    assert_eq!(
        screenshot_file_name("models/truck/point_cloud/iteration_7000/point_cloud.ply", 1700000000123),
        "splatrs-truck-1700000000123.bmp"
    );
    assert_eq!(screenshot_file_name("", 5), "splatrs-scene-5.bmp");
}
