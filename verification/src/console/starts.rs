//! What a cart needs to start, and what it starts with.

use std::rc::Rc;
use vstd::prelude::*;
use vstd::utf8::*;
use super::loading::started;
use super::{Cart, History, Host, Preload};
use crate::draw::DrawState;
use crate::manifest::{ManifestView, Service};
use crate::snapshot::{file_from, Snapshot};

verus! {

/// A cart has the screen of its mode, an empty log and nothing playing; it
/// has a network only where its manifest asks for it, off and as far as it
/// is permitted.
pub proof fn law_a_cart_starts_as_its_manifest_says(
    d: DrawState,
    m: ManifestView,
    source: Rc<Snapshot>,
    permitted: bool,
    invite: Option<Seq<char>>,
)
    requires
        started(d, m, source, permitted, invite),
    ensures
        m.screen_mode is Low ==> d.width == 320 && d.height == 240,
        m.screen_mode is High ==> d.width == 640 && d.height == 480,
        d.log@.len() == 0,
        d.audio@.music is None && d.audio@.sfx.len() == 0,
        d.net is Some <==> m.services.contains(Service::Net),
        d.net matches Some(n) ==> {
            &&& n@.status is Off
            &&& n@.permitted == permitted && n@.invite == invite
            &&& n@.inbox.len() == 0 && n@.outbox.len() == 0
        },
        d.cart == source,
{
}

/// A cart without a main file, or with one that is no text, does not run: it
/// has a fault and no guest, and the host was asked to build nothing.
pub proof fn law_a_cart_needs_its_main_file<G, H: Host<G>>(
    c: Cart<G>,
    source: Rc<Snapshot>,
    preload: Preload,
    permitted: bool,
    invite: Option<Seq<char>>,
    was: History,
    now: History,
)
    requires
        c.loaded::<H>(source, preload, permitted, invite, was, now),
        file_from(source@, "main.lua"@, 0) is None || !valid_utf8(
            file_from(source@, "main.lua"@, 0)->0,
        ),
    ensures
        c.status@ is Some,
        c.guest is None,
        now == was,
{
}

/// A cart that has a guest has it from the text of its main file: the host
/// was asked for that, once. It has not run yet.
pub proof fn law_a_guest_is_built_of_the_main_file<G, H: Host<G>>(
    c: Cart<G>,
    source: Rc<Snapshot>,
    preload: Preload,
    permitted: bool,
    invite: Option<Seq<char>>,
    was: History,
    now: History,
)
    requires
        c.loaded::<H>(source, preload, permitted, invite, was, now),
        c.guest is Some,
    ensures
        file_from(source@, "main.lua"@, 0) is Some,
        now == was.push((decode_utf8(file_from(source@, "main.lua"@, 0)->0), "main.lua"@)),
        c.status@ is None,
        c.frame == 0,
        c.source == Some(source),
{
}

} // verus!
