//! Where the parts of a message stand in its bytes, and what the flags of a
//! run come to.

use vstd::prelude::*;
use vstd::utf8::encode_utf8;
use crate::cli::{
    env_is, mode_of, path_refusal, replay_refusal, transcript_words, NetMode, Replay, RunFlags,
};
use crate::grids::law_numbers_go_low_byte_first;
use crate::ipc::{
    audio_from, body, cycles_from, head_bytes, palette_from, sample_bits, saves_from, sent_audio,
    FrameView, MessageView,
};
use crate::net::{NetEnv, MAX_TICKET};
use crate::wire::{field, le, lemma_le_len};

verus! {

/// Four bytes as the number that they spell, low byte first.
pub open spec fn word_at(b: Seq<u8>, i: int) -> int {
    b[i] + 0x100 * b[i + 1] + 0x1_0000 * b[i + 2] + 0x100_0000 * b[i + 3]
}

proof fn lemma_word(n: nat)
    requires
        n <= u32::MAX,
    ensures
        le(n, 4).len() == 4,
        word_at(le(n, 4), 0) == n,
{
    law_numbers_go_low_byte_first(n);
    assert(n / 0x100 / 0x100 == n / 0x1_0000);
    assert(n / 0x100 / 0x100 / 0x100 == n / 0x100_0000);
}

/// A step is its tag and the buttons, a stop its tag, and a ready its tag,
/// the width and the height.
pub proof fn law_short_messages_have_their_layout(buttons: u8, width: u32, height: u32)
    ensures
        body(MessageView::Step { buttons }).len() == 2,
        body(MessageView::Step { buttons })[1] == buttons,
        body(MessageView::Stop).len() == 1,
        ({
            let b = body(MessageView::Ready { width, height });
            &&& b.len() == 9
            &&& word_at(b, 1) == width
            &&& word_at(b, 5) == height
        }),
{
    lemma_word(width as nat);
    lemma_word(height as nat);
    let w = le(width as nat, 4);
    let h = le(height as nat, 4);
    let b = body(MessageView::Ready { width, height });
    assert(b[1] == w[0] && b[2] == w[1] && b[3] == w[2] && b[4] == w[3]);
    assert(b[5] == h[0] && b[6] == h[1] && b[7] == h[2] && b[8] == h[3]);
}

/// A message is told from the others by its first byte.
pub proof fn law_each_message_has_its_tag(a: MessageView, b: MessageView)
    requires
        body(a)[0] == body(b)[0],
    ensures
        a is Load <==> b is Load,
        a is Step <==> b is Step,
        a is Stop <==> b is Stop,
        a is Ready <==> b is Ready,
        a is Frame <==> b is Frame,
        a is Error <==> b is Error,
{
}

/// A frame starts with its number in eight bytes and its sides in four
/// each.
pub proof fn law_a_frame_starts_with_its_sides(f: FrameView)
    ensures
        head_bytes(f).len() == 16,
        head_bytes(f).take(8) == le(f.frame as nat, 8),
        word_at(head_bytes(f), 8) == f.width,
        word_at(head_bytes(f), 12) == f.height,
{
    lemma_le_len(f.frame as nat, 8);
    lemma_word(f.width as nat);
    lemma_word(f.height as nat);
    let a = le(f.frame as nat, 8);
    let w = le(f.width as nat, 4);
    let h = le(f.height as nat, 4);
    let b = head_bytes(f);
    assert(b.take(8) =~= a);
    assert(b[8] == w[0] && b[9] == w[1] && b[10] == w[2] && b[11] == w[3]);
    assert(b[12] == h[0] && b[13] == h[1] && b[14] == h[2] && b[15] == h[3]);
}

/// The parts of a list go one behind the other, from its first: colours,
/// samples, cycles and slots.
pub proof fn law_lists_go_from_their_first(
    p: Seq<Seq<u8>>,
    a: Seq<i16>,
    c: Seq<u64>,
    s: Seq<(u8, Seq<u8>)>,
    i: int,
)
    requires
        0 <= i,
    ensures
        i < p.len() ==> palette_from(p, i) == p[i] + palette_from(p, i + 1),
        i < a.len() ==> audio_from(a, i) == le(sample_bits(a[i]), 2) + audio_from(a, i + 1),
        i < c.len() ==> cycles_from(c, i) == le(c[i] as nat, 8) + cycles_from(c, i + 1),
        i < s.len() ==> saves_from(s, i) == seq![s[i].0] + field(s[i].1) + saves_from(s, i + 1),
        i < a.len() ==> (sample_bits(a[i]) - a[i]) % 0x1_0000 == 0 && sample_bits(a[i]) < 0x1_0000,
{
}

// ----- the flags of a run ---------------------------------------------------------------------

/// A run opens a window unless a flag says otherwise. In a window the cart
/// runs in a worker unless it is to run in process; without one it runs in
/// process unless it is to run in a worker. Flags that do not fit together
/// are refused.
pub proof fn law_flags_say_how_a_cart_runs(f: RunFlags)
    ensures
        f.headless || f.frames || f.worker || f.profile || f.replay || f.timing ==> f.is_headless()
            && f.has_worker() == f.worker,
        !(f.headless || f.frames || f.worker || f.profile || f.replay || f.timing)
            ==> !f.is_headless() && f.has_worker() == !f.in_process,
        f.refusal() is Some <==> (f.is_headless() && f.in_process) || (f.no_sandbox
            && !f.has_worker()),
{
}

/// A session is hosted, or joined by a ticket; nothing else is a mode.
pub proof fn law_a_mode_is_host_or_join(args: Seq<Seq<char>>, ticket: Seq<char>)
    ensures
        mode_of(seq!["host"@]) == Ok::<Option<Seq<char>>, Seq<char>>(None),
        encode_utf8(ticket).len() <= MAX_TICKET ==> mode_of(
            seq!["join"@, ticket],
        ) == Ok::<Option<Seq<char>>, Seq<char>>(Some(ticket)),
        encode_utf8(ticket).len() > MAX_TICKET ==> mode_of(
            seq!["join"@, ticket],
        ) is Err,
        mode_of(seq!["join"@]) is Err,
        args.len() == 0 || args.len() > 2 ==> mode_of(args) is Err,
        args.len() > 0 && args[0] != "host"@ && args[0] != "join"@ ==> mode_of(args) is Err,
{
    reveal_strlit("host");
    reveal_strlit("join");
    assert("host"@[0] == 'h' && "join"@[0] == 'j');
}

/// A path is a cart's exactly if it is a directory or an archive and has a
/// main file.
pub proof fn law_a_cart_has_a_main_file(path: Seq<char>, archive: bool, dir: bool, main: bool)
    ensures
        path_refusal(path, archive, dir, main) is None <==> (archive || dir) && main,
{
}

/// A transcript of another cart is replayed only where that is asked for,
/// one of another seed never; one of another runtime is replayed with a
/// warning.
pub proof fn law_a_transcript_fits_its_cart(
    other: Option<Seq<char>>,
    any_cart: bool,
    seed: u64,
    our_seed: u64,
    runtime: Seq<char>,
    our_runtime: Seq<char>,
)
    ensures
        ({
            let r = transcript_words(other, any_cart, seed, our_seed, runtime, our_runtime);
            &&& r is Ok <==> (other is None || any_cart) && seed == our_seed
            &&& r matches Ok(v) ==> v.len() == (if other is Some {
                1int
            } else {
                0
            }) + (if runtime != our_runtime {
                1int
            } else {
                0
            })
        }),
{
}

/// A run that has a mode may use the network and has its invitation; one
/// without has what was recorded, or nothing.
pub proof fn law_a_run_has_its_network(
    e: NetEnv,
    net: Option<NetMode>,
    recorded: Option<NetEnv>,
)
    requires
        env_is(e, net, recorded),
    ensures
        net is Some ==> e.permitted,
        net matches Some(NetMode::Host) ==> e.invite is None,
        net matches Some(NetMode::Join(t)) ==> e.invite matches Some(i) && i@ == t@,
        net is None && recorded is Some ==> e == recorded->0,
        net is None && recorded is None ==> !e.permitted && e.invite is None,
{
}

/// A networked transcript is not replayed in a worker.
pub proof fn law_a_networked_replay_is_in_process(r: Replay)
    ensures
        r.net is Some ==> replay_refusal(r, true) is Some,
        r.net is None ==> replay_refusal(r, true) == replay_refusal(r, false),
{
}

/// A frame carries its first 735 samples.
pub proof fn law_a_frame_carries_its_samples(a: Seq<i16>, i: int)
    ensures
        a.len() <= 735 ==> sent_audio(a) == a,
        a.len() > 735 ==> sent_audio(a).len() == 735,
        0 <= i < sent_audio(a).len() ==> sent_audio(a)[i] == a[i],
{
}

} // verus!
