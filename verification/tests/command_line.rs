use simpleff::args::build_args;
use simpleff::params::VideoParams;

#[test]
fn builds_full_argument_list() {
    let p = VideoParams {
        input_path: String::from("in.mov"),
        output_path: String::from("out.mp4"),
        video_codec: Some(String::from("libx264")),
        audio_codec: Some(String::from("aac")),
        codec_params: vec![
            (String::from("crf"), String::from("23")),
            (String::from("preset"), String::from("fast")),
        ],
    };
    let args = build_args(&p);
    let expected = vec![
        "-y", "-i", "in.mov", "-c:v", "libx264", "-c:a", "aac", "-crf", "23", "-preset", "fast",
        "-progress", "pipe:1", "-loglevel", "error", "out.mp4",
    ];
    assert_eq!(args, expected);
}

#[test]
fn builds_minimal_argument_list() {
    let p = VideoParams {
        input_path: String::from("clip.avi"),
        output_path: String::from("clip.mp4"),
        video_codec: None,
        audio_codec: None,
        codec_params: Vec::new(),
    };
    let args = build_args(&p);
    let expected = vec!["-y", "-i", "clip.avi", "-progress", "pipe:1", "-loglevel", "error",
        "clip.mp4"];
    assert_eq!(args, expected);
}

#[test]
fn audio_codec_alone_is_kept() {
    let p = VideoParams {
        input_path: String::from("a.wav"),
        output_path: String::from("a.m4a"),
        video_codec: None,
        audio_codec: Some(String::from("aac")),
        codec_params: Vec::new(),
    };
    let args = build_args(&p);
    assert_eq!(args[3], "-c:a");
    assert_eq!(args[4], "aac");
    assert_eq!(args[args.len() - 1], "a.m4a");
}
