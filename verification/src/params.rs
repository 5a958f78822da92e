//! Parameters of one transcoding job.

use vstd::prelude::*;

verus! {

/// What a caller hands in to start a job.  Immutable once the job starts.
///
/// The extra encoder options are an order-irrelevant mapping rendered as a
/// key–value list; each pair `(k, v)` becomes the flag `-k` followed by `v`
/// on the external tool's command line.
pub struct VideoParams {
    pub input_path: String,
    pub output_path: String,
    pub video_codec: Option<String>,
    pub audio_codec: Option<String>,
    pub codec_params: Vec<(String, String)>,
}

/// The mathematical content of a [`VideoParams`].
pub struct VideoParamsView {
    pub input_path: Seq<char>,
    pub output_path: Seq<char>,
    pub video_codec: Option<Seq<char>>,
    pub audio_codec: Option<Seq<char>>,
    pub codec_params: Seq<(Seq<char>, Seq<char>)>,
}

impl View for VideoParams {
    type V = VideoParamsView;

    open spec fn view(&self) -> VideoParamsView {
        VideoParamsView {
            input_path: self.input_path@,
            output_path: self.output_path@,
            video_codec: match self.video_codec {
                Some(c) => Some(c@),
                None => None,
            },
            audio_codec: match self.audio_codec {
                Some(c) => Some(c@),
                None => None,
            },
            codec_params: self.codec_params@.map_values(|p: (String, String)| (p.0@, p.1@)),
        }
    }
}

} // verus!
