//! Construction of the external transcoder's argument list.
//!
//! The list is, in order: the overwrite-output flag, the input path, the
//! optional video and audio codec selectors, the extra encoder options
//! rendered as flag/value pairs, the request for the machine-readable
//! progress stream on standard output, error-only logging verbosity, and the
//! output path last.

use crate::params::VideoParams;
use crate::params::VideoParamsView;
use vstd::prelude::*;
use vstd::assert_seqs_equal;
use vstd::string::StringExecFns;

verus! {

/// The two arguments a codec selector contributes, or none.
pub open spec fn codec_flag_args(flag: Seq<char>, codec: Option<Seq<char>>) -> Seq<Seq<char>> {
    match codec {
        Some(c) => seq![flag, c],
        None => Seq::empty(),
    }
}

/// Each extra option pair `(k, v)` becomes the flag `-k` followed by `v`.
pub open spec fn pair_args(ps: Seq<(Seq<char>, Seq<char>)>) -> Seq<Seq<char>>
    decreases ps.len(),
{
    if ps.len() == 0 {
        Seq::empty()
    } else {
        pair_args(ps.drop_last()) + seq![seq!['-'] + ps.last().0, ps.last().1]
    }
}

/// The full argument list of one transcoding invocation.
pub open spec fn command_args(p: VideoParamsView) -> Seq<Seq<char>> {
    seq!["-y"@, "-i"@, p.input_path] + codec_flag_args("-c:v"@, p.video_codec) + codec_flag_args(
        "-c:a"@,
        p.audio_codec,
    ) + pair_args(p.codec_params) + seq![
        "-progress"@,
        "pipe:1"@,
        "-loglevel"@,
        "error"@,
        p.output_path,
    ]
}

/// The character content of a list of strings.
pub open spec fn string_views(v: Seq<String>) -> Seq<Seq<char>> {
    v.map_values(|s: String| s@)
}

/// Build the transcoder's argument list for one job.
#[verifier::loop_isolation(false)]
pub fn build_args(p: &VideoParams) -> (r: Vec<String>)
    ensures
        string_views(r@) == command_args(p@),
{
    let mut out: Vec<String> = Vec::new();
    out.push("-y".to_owned());
    out.push("-i".to_owned());
    out.push(p.input_path.clone());
    let ghost head = seq!["-y"@, "-i"@, p@.input_path];
    proof {
        assert(string_views(out@) =~~= head);
    }
    if let Some(vc) = &p.video_codec {
        out.push("-c:v".to_owned());
        out.push(vc.clone());
    }
    proof {
        assert(string_views(out@) =~~= head + codec_flag_args("-c:v"@, p@.video_codec));
    }
    if let Some(ac) = &p.audio_codec {
        out.push("-c:a".to_owned());
        out.push(ac.clone());
    }
    let ghost mid = head + codec_flag_args("-c:v"@, p@.video_codec) + codec_flag_args(
        "-c:a"@,
        p@.audio_codec,
    );
    proof {
        assert(string_views(out@) =~~= mid);
    }
    let mut i: usize = 0;
    while i < p.codec_params.len()
        invariant
            i <= p.codec_params@.len(),
            string_views(out@) == mid + pair_args(p@.codec_params.take(i as int)),
        decreases p.codec_params@.len() - i,
    {
        let mut flag = "-".to_owned();
        flag.append(p.codec_params[i].0.as_str());
        let ghost fv = flag@;
        let ghost prev = out@;
        out.push(flag);
        out.push(p.codec_params[i].1.clone());
        proof {
            reveal_strlit("-");
            assert("-"@ =~= seq!['-']);
            let ghost cp = p.codec_params@[i as int];
            assert(p@.codec_params[i as int] == (cp.0@, cp.1@));
            assert(fv == seq!['-'] + p@.codec_params[i as int].0);
            let ghost step = p@.codec_params.take(i as int + 1);
            assert(step.drop_last() =~= p@.codec_params.take(i as int));
            assert(step.last() == p@.codec_params[i as int]);
            assert(pair_args(step) == pair_args(p@.codec_params.take(i as int)) + seq![
                fv,
                p@.codec_params[i as int].1,
            ]);
            assert(string_views(prev) == mid + pair_args(p@.codec_params.take(i as int)));
            assert_seqs_equal!(string_views(out@) == mid + pair_args(step), j => {
                assert(string_views(out@)[j] == out@[j]@);
                if j < prev.len() {
                    assert(out@[j] == prev[j]);
                    assert((mid + pair_args(step))[j] == string_views(prev)[j]);
                } else if j == prev.len() {
                    assert(out@[j]@ == fv);
                    assert((mid + pair_args(step))[j] == fv);
                } else {
                    assert(out@[j]@ == cp.1@);
                    assert((mid + pair_args(step))[j] == cp.1@);
                }
            });
        }
        i = i + 1;
    }
    proof {
        assert(p@.codec_params.take(p.codec_params@.len() as int) =~= p@.codec_params);
    }
    out.push("-progress".to_owned());
    out.push("pipe:1".to_owned());
    out.push("-loglevel".to_owned());
    out.push("error".to_owned());
    out.push(p.output_path.clone());
    proof {
        assert(string_views(out@) =~~= command_args(p@));
    }
    out
}

} // verus!
