//! Where a cart keeps its audio assets.

use vstd::prelude::*;
use vstd::string::*;

verus! {

pub open spec fn sfx_file(name: Seq<char>) -> Seq<char> {
    "sfx/"@ + name + ".trk"@
}

pub open spec fn music_file(name: Seq<char>) -> Seq<char> {
    "music/"@ + name + ".trk"@
}

pub open spec fn sample_file(name: Seq<char>) -> Seq<char> {
    "samples/"@ + name + ".wav"@
}

fn join(before: &str, name: &str, after: &str) -> (s: String)
    ensures
        s@ == before@ + name@ + after@,
{
    let mut s = before.to_owned();
    s.append(name);
    s.append(after);
    s
}

pub fn sfx_path(name: &str) -> (s: String)
    ensures
        s@ == sfx_file(name@),
{
    join("sfx/", name, ".trk")
}

pub fn music_path(name: &str) -> (s: String)
    ensures
        s@ == music_file(name@),
{
    join("music/", name, ".trk")
}

pub fn sample_path(name: &str) -> (s: String)
    ensures
        s@ == sample_file(name@),
{
    join("samples/", name, ".wav")
}

} // verus!
