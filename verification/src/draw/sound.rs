//! The cart-facing audio calls on [`DrawState`]: they resolve names to
//! cart paths, load and cache the assets from the cart like `load_sheet`
//! does, and hand the decoded data to the mixer.

use std::rc::Rc;
use vstd::prelude::*;
use vstd::string::*;
use crate::audio::api::{music_file, music_path, sample_file, sample_path, sfx_file, sfx_path};
use crate::audio::playing::{cart_channel, sample_played, sfx_played};
use crate::audio::sample::{budget_refusal, wav, BankView, Sample, SampleView, SAMPLE_BUDGET};
use crate::audio::tracker::{self, sample_names_of, track_of, Track};
use crate::audio::{AudioError, AudioErrorView, Channel, MixerView};
use crate::draw::DrawState;
use crate::manifest::{is_asset_name, valid_asset_name};
use crate::snapshot::{file_from, Entry};
use crate::text::texts;

verus! {

/// What a bank holds, down to the samples' values.
#[verifier::ext_equal]
pub struct Stock {
    pub samples: Map<Seq<char>, SampleView>,
    pub used: nat,
}

pub open spec fn stock_of(b: BankView) -> Stock {
    Stock {
        samples: Map::new(
            |k: Seq<char>| b.samples.contains_key(k),
            |k: Seq<char>| (*b.samples[k])@,
        ),
        used: b.used,
    }
}

/// Whether a bank still holds a sample that another did.
pub open spec fn still_has(was: BankView, now: BankView, k: Seq<char>) -> bool {
    was.samples.contains_key(k) ==> now.samples.contains_key(k) && now.samples[k] == was.samples[k]
}

/// Whether a bank still holds all that another did.
pub open spec fn keeps(was: BankView, now: BankView) -> bool {
    forall|k: Seq<char>| #[trigger] still_has(was, now, k)
}

proof fn lemma_keeps(a: BankView, b: BankView, c: BankView)
    requires
        keeps(a, b),
        keeps(b, c),
    ensures
        keeps(a, c),
{
    assert forall|k: Seq<char>| #[trigger] still_has(a, c, k) by {
        assert(still_has(a, b, k));
        assert(still_has(b, c, k));
    }
}

/// Why the cart gives no asset, or its bytes.
pub open spec fn asset_of(cart: Seq<Entry>, path: Seq<char>, name: Seq<char>) -> Result<
    Seq<u8>,
    AudioErrorView,
> {
    if !is_asset_name(name) {
        Err(AudioErrorView::AssetInvalid { path, why: "bad asset name"@ })
    } else {
        match file_from(cart, path, 0) {
            Some(b) => Ok(b),
            None => Err(AudioErrorView::AssetNotFound { path }),
        }
    }
}

/// Loading one sample: the stock behind it, and the sample or why there
/// is none.
pub open spec fn with_sample(s: Stock, cart: Seq<Entry>, name: Seq<char>) -> (
    Stock,
    Result<SampleView, AudioErrorView>,
) {
    let path = sample_file(name);
    if s.samples.contains_key(path) {
        (s, Ok(s.samples[path]))
    } else {
        match asset_of(cart, path, name) {
            Err(e) => (s, Err(e)),
            Ok(bytes) => match wav(bytes) {
                Err(why) => (s, Err(AudioErrorView::Sample { path, why })),
                Ok(v) => if s.used + v.bytes > SAMPLE_BUDGET {
                    (s, Err(AudioErrorView::Sample { path, why: budget_refusal(s.used, v.bytes) }))
                } else {
                    (
                        Stock { samples: s.samples.insert(path, v), used: s.used + v.bytes },
                        Ok(v),
                    )
                },
            },
        }
    }
}

/// Loading the samples of a list from `i` on, up to the first that fails.
pub open spec fn with_samples(s: Stock, cart: Seq<Entry>, names: Seq<Seq<char>>, i: int) -> (
    Stock,
    Option<AudioErrorView>,
)
    decreases names.len() - i,
{
    if i >= names.len() {
        (s, None)
    } else {
        match with_sample(s, cart, names[i]) {
            (t, Err(e)) => (t, Some(e)),
            (t, Ok(_)) => with_samples(t, cart, names, i + 1),
        }
    }
}

/// What comes of loading a track: the cached one, an error, or a parsed
/// track whose samples are in the bank.
pub open spec fn track_loaded(
    was: MixerView,
    now: MixerView,
    cart: Seq<Entry>,
    path: Seq<char>,
    name: Seq<char>,
    r: Result<Rc<Track>, AudioErrorView>,
) -> bool {
    if was.tracks.contains_key(path) {
        r == Ok::<Rc<Track>, AudioErrorView>(was.tracks[path]) && now == was
    } else {
        match asset_of(cart, path, name) {
            Err(e) => r == Err::<Rc<Track>, AudioErrorView>(e) && now == was,
            Ok(bytes) => match track_of(bytes) {
                Err((line, why)) => r == Err::<Rc<Track>, AudioErrorView>(
                    AudioErrorView::Track { path, line: line as u32, why },
                ) && now == was,
                Ok(t) => {
                    let end = with_samples(
                        stock_of(was.bank),
                        cart,
                        sample_names_of(t.instruments),
                        0,
                    );
                    &&& stock_of(now.bank) == end.0
                    &&& keeps(was.bank, now.bank)
                    &&& match end.1 {
                        Some(e) => r == Err::<Rc<Track>, AudioErrorView>(e) && now == (MixerView {
                            bank: now.bank,
                            ..was
                        }),
                        None => r is Ok && r->Ok_0@ == t && now == (MixerView {
                            bank: now.bank,
                            tracks: was.tracks.insert(path, r->Ok_0),
                            ..was
                        }),
                    }
                },
            },
        }
    }
}

/// The view of a result whose error has one.
pub open spec fn seen<T>(r: Result<T, AudioError>) -> Result<T, AudioErrorView> {
    match r {
        Ok(t) => Ok(t),
        Err(e) => Err(e@),
    }
}

impl DrawState {
    /// The same but for the mixer.
    pub open spec fn same_but_audio(&self, o: DrawState) -> bool {
        *self == (DrawState { audio: self.audio, ..o })
    }

    fn read_asset(&self, path: &str, name: &str) -> (r: Result<&Vec<u8>, AudioError>)
        ensures
            match (r, asset_of(self.cart@, path@, name@)) {
                (Ok(b), Ok(v)) => b@ == v,
                (Err(e), Err(v)) => e@ == v,
                _ => false,
            },
    {
        if !valid_asset_name(name) {
            return Err(
                AudioError::AssetInvalid { path: path.to_owned(), why: "bad asset name".to_owned() },
            );
        }
        match self.cart.get(path) {
            Some(b) => Ok(b),
            None => Err(AudioError::AssetNotFound { path: path.to_owned() }),
        }
    }

    /// Decode `samples/<name>.wav` into the bank, or return the cached one.
    pub fn load_sample(&mut self, name: &str) -> (r: Result<Rc<Sample>, AudioError>)
        requires
            old(self).wf(),
        ensures
            final(self).wf(),
            final(self).same_but_audio(*old(self)),
            final(self).audio@ == (MixerView { bank: final(self).audio@.bank, ..old(self).audio@ }),
            keeps(old(self).audio@.bank, final(self).audio@.bank),
            ({
                let end = with_sample(stock_of(old(self).audio@.bank), old(self).cart@, name@);
                &&& stock_of(final(self).audio@.bank) == end.0
                &&& match (r, end.1) {
                    (Ok(s), Ok(v)) => s@ == v && final(self).audio@.bank.samples.contains_key(sample_file(name@)) && s
                        == final(self).audio@.bank.samples[sample_file(name@)],
                    (Err(e), Err(v)) => e@ == v,
                    _ => false,
                }
            }),
    {
        let path = sample_path(name);
        let ghost was = self.audio@;
        if let Some(s) = self.audio.samples().get(path.as_str()) {
            return Ok(s);
        }
        let copy = match self.read_asset(path.as_str(), name) {
            Ok(b) => vstd::slice::slice_to_vec(b.as_slice()),
            Err(e) => return Err(e),
        };
        let r = self.audio.samples_mut().insert(path.as_str(), copy.as_slice());
        proof {
            let now = self.audio@;
            assert(stock_of(now.bank) =~= with_sample(
                stock_of(was.bank),
                self.cart@,
                name@,
            ).0) by {
                assert(stock_of(now.bank).samples =~= with_sample(
                    stock_of(was.bank),
                    self.cart@,
                    name@,
                ).0.samples);
            }
        }
        r
    }

    /// Parse a track at `path` and load every sample it names, or return
    /// the cached one.
    fn load_track(&mut self, path: &str, name: &str) -> (r: Result<Rc<Track>, AudioError>)
        requires
            old(self).wf(),
        ensures
            final(self).wf(),
            final(self).same_but_audio(*old(self)),
            track_loaded(
                old(self).audio@,
                final(self).audio@,
                old(self).cart@,
                path@,
                name@,
                seen(r),
            ),
            r matches Ok(t) ==> t@.wf(),
    {
        if let Some(t) = self.audio.cached_track(path) {
            return Ok(t);
        }
        let ghost was = self.audio@;
        let parsed = match self.read_asset(path, name) {
            Ok(b) => tracker::parse(path, b.as_slice()),
            Err(e) => return Err(e),
        };
        let track = match parsed {
            Ok(t) => t,
            Err(e) => return Err(e),
        };
        let names = track.sample_names();
        let ghost list = texts(names@);
        let ghost all = with_samples(stock_of(was.bank), self.cart@, list, 0);
        let mut i: usize = 0;
        while i < names.len()
            invariant
                i <= names@.len(),
                list == texts(names@),
                old(self).wf(),
                was == old(self).audio@,
                self.wf(),
                self.same_but_audio(*old(self)),
                self.audio@ == (MixerView { bank: self.audio@.bank, ..was }),
                keeps(was.bank, self.audio@.bank),
                all == with_samples(stock_of(self.audio@.bank), self.cart@, list, i as int),
                track@.wf(),
                track_of(asset_of(old(self).cart@, path@, name@)->Ok_0) == Ok::<
                    tracker::TrackView,
                    (nat, Seq<char>),
                >(track@),
                asset_of(old(self).cart@, path@, name@) is Ok,
                list == sample_names_of(track@.instruments),
                all == with_samples(stock_of(was.bank), old(self).cart@, list, 0),
                !was.tracks.contains_key(path@),
            decreases names.len() - i,
        {
            assert(list[i as int] == names@[i as int]@);
            let ghost mid = self.audio@.bank;
            let loaded = self.load_sample(names[i].as_str());
            proof {
                lemma_keeps(was.bank, mid, self.audio@.bank);
            }
            if let Err(e) = loaded {
                return Err(e);
            }
            i += 1;
        }
        Ok(self.audio.cache_track(path, track))
    }

    /// `sfx(name, channel?)`: play `sfx/<name>.trk`. Returns the channel.
    pub fn sfx(&mut self, name: &str, channel: Option<i64>) -> (r: Result<usize, AudioError>)
        requires
            old(self).wf(),
        ensures
            final(self).wf(),
            final(self).same_but_audio(*old(self)),
            exists|mid: MixerView, t: Result<Rc<Track>, AudioErrorView>| #[trigger]
                track_loaded(
                    old(self).audio@,
                    mid,
                    old(self).cart@,
                    sfx_file(name@),
                    name@,
                    t,
                ) && match t {
                    Err(e) => seen(r) == Err::<usize, AudioErrorView>(e) && final(self).audio@
                        == mid,
                    Ok(track) => sfx_played(
                        mid,
                        final(self).audio@,
                        sfx_file(name@),
                        track,
                        channel,
                        r,
                    ),
                },
    {
        let path = sfx_path(name);
        let ghost was = self.audio@;
        let loaded = self.load_track(path.as_str(), name);
        assert(track_loaded(was, self.audio@, self.cart@, sfx_file(name@), name@, seen(loaded)));
        match loaded {
            Ok(track) => self.audio.play_sfx(path.as_str(), track, channel),
            Err(e) => Err(e),
        }
    }

    /// `music(name, fade?)`: play `music/<name>.trk` on the low channels;
    /// `None` fades the current music out over `fade` frames.
    pub fn music(&mut self, name: Option<&str>, fade: u32) -> (r: Result<(), AudioError>)
        requires
            old(self).wf(),
        ensures
            final(self).wf(),
            final(self).same_but_audio(*old(self)),
            match name {
                None => r is Ok && final(self).audio@ == old(self).audio@.music_stopped(fade),
                Some(name) => exists|mid: MixerView, t: Result<Rc<Track>, AudioErrorView>|
                    #[trigger]
                    track_loaded(
                        old(self).audio@,
                        mid,
                        old(self).cart@,
                        music_file(name@),
                        name@,
                        t,
                    ) && match t {
                        Err(e) => seen(r) == Err::<(), AudioErrorView>(e) && final(self).audio@
                            == mid,
                        Ok(track) => r is Ok && final(self).audio@ == mid.music_started(
                            track,
                            fade,
                        ),
                    },
            },
    {
        match name {
            None => {
                self.audio.stop_music(fade);
                Ok(())
            },
            Some(name) => {
                let path = music_path(name);
                let ghost was = self.audio@;
                let loaded = self.load_track(path.as_str(), name);
                assert(track_loaded(
                    was,
                    self.audio@,
                    self.cart@,
                    music_file(name@),
                    name@,
                    seen(loaded),
                ));
                match loaded {
                    Ok(track) => {
                        self.audio.play_music(track, fade);
                        Ok(())
                    },
                    Err(e) => Err(e),
                }
            },
        }
    }

    /// `sample(name, channel?, pitch?)` with `pitch` in 16.16.
    pub fn sample(&mut self, name: &str, channel: Option<i64>, pitch: u32) -> (r: Result<
        usize,
        AudioError,
    >)
        requires
            old(self).wf(),
        ensures
            final(self).wf(),
            final(self).same_but_audio(*old(self)),
            exists|bank: BankView|
                ({
                    let mid = MixerView { bank, ..old(self).audio@ };
                    let end = with_sample(stock_of(old(self).audio@.bank), old(self).cart@, name@);
                    &&& #[trigger] keeps(old(self).audio@.bank, bank)
                    &&& stock_of(bank) == end.0
                    &&& match end.1 {
                        Err(e) => seen(r) == Err::<usize, AudioErrorView>(e) && final(self).audio@
                            == mid,
                        Ok(_) => sample_played(
                            mid,
                            final(self).audio@,
                            bank.samples[sample_file(name@)],
                            channel,
                            pitch,
                            r,
                        ),
                    }
                }),
    {
        let ghost was = self.audio@;
        let loaded = self.load_sample(name);
        assert(keeps(was.bank, self.audio@.bank));
        match loaded {
            Ok(s) => self.audio.play_sample(s, channel, pitch),
            Err(e) => Err(e),
        }
    }

    /// `volume(channel, v)` with `v` already scaled to 0..=255.
    pub fn volume(&mut self, channel: i64, v: u8) -> (r: Result<(), AudioError>)
        requires
            old(self).wf(),
        ensures
            final(self).wf(),
            final(self).same_but_audio(*old(self)),
            if cart_channel(channel) {
                r is Ok && final(self).audio@ == (MixerView {
                    channels: old(self).audio@.channels.update(
                        channel as int,
                        Channel { gain: v, ..old(self).audio@.channels[channel as int] },
                    ),
                    ..old(self).audio@
                })
            } else {
                r is Err && r->Err_0@ == (AudioErrorView::BadChannel { channel }) && final(self).audio@ == old(self).audio@
            },
    {
        self.audio.set_volume(channel, v)
    }
}

/// Loading a sample again gives the same sample and changes nothing.
pub proof fn law_a_loaded_sample_is_cached(s: Stock, cart: Seq<Entry>, name: Seq<char>)
    requires
        with_sample(s, cart, name).1 is Ok,
    ensures
        with_sample(with_sample(s, cart, name).0, cart, name) == with_sample(s, cart, name),
{
}

/// A failed load leaves the bank as it was.
pub proof fn law_a_refused_sample_changes_nothing(s: Stock, cart: Seq<Entry>, name: Seq<char>)
    requires
        with_sample(s, cart, name).1 is Err,
    ensures
        with_sample(s, cart, name).0 == s,
{
}

} // verus!
