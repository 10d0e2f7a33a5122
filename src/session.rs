//! The per-client session: which viewport the client watches, whether it
//! streams, and whether its last picture is anchored to the previous version.
//! The transport loop hands each event to a `Session` and performs what it
//! returns.

use vstd::prelude::*;
use crate::common::Viewport;
use crate::proto::{FromClient, FromServer};
use crate::world::{perimeter_cells, rows_of, slice_cells, CellModification, World};

verus! {

/// What the transport does after a client message.
#[derive(Debug, PartialEq)]
pub enum Reply {
    Nothing,
    /// Send this message to the client.
    Send(FromServer),
    /// Hand this edit to the tick engine.
    Enqueue(CellModification),
}

#[derive(Clone, Copy, Debug, PartialEq, Eq, Structural)]
pub struct Session {
    pub view: Viewport,
    /// The client asked for the stream.
    pub sending: bool,
    /// The client's picture is anchored to the last version it was sent.
    pub synced: bool,
}

/// The full refresh of `view` taken from `world`.
pub open spec fn is_full_refresh(msg: FromServer, world: World, view: Viewport) -> bool {
    match msg {
        FromServer::FullRefresh { x, y, tiles } => x == view.x && y == view.y && rows_of(tiles)
            == slice_cells(world@, view.x as int, view.y as int, view.w as int, view.h as int),
        _ => false,
    }
}

/// The perimeter refresh of `view` taken from `world`.
pub open spec fn is_partial_refresh(msg: FromServer, world: World, view: Viewport) -> bool {
    match msg {
        FromServer::PartialRefresh { tiles } => tiles@ == perimeter_cells(
            world@,
            view.x as int,
            view.y as int,
            view.w as int,
            view.h as int,
        ),
        _ => false,
    }
}

fn full_refresh(world: &World, view: Viewport) -> (msg: FromServer)
    ensures
        is_full_refresh(msg, *world, view),
{
    let tiles = world.copy_slice(view.x, view.y, view.w, view.h);
    FromServer::FullRefresh { x: view.x, y: view.y, tiles }
}

impl Session {
    /// A fresh session: the viewport `(0, 0, 30, 30)`, not streaming, not synced.
    pub fn new() -> (s: Session)
        ensures
            s.view == (Viewport { x: 0, y: 0, w: 30, h: 30 }),
            !s.sending,
            !s.synced,
    {
        Session { view: Viewport { x: 0, y: 0, w: 30, h: 30 }, sending: false, synced: false }
    }

    /// Handles one decoded client message; `last_world` is the latest
    /// published version.
    pub fn on_client(&mut self, msg: FromClient, last_world: &World) -> (r: Reply)
        ensures
            match msg {
                FromClient::ModifyCell { x, y, cell } => *final(self) == *old(self) && r == Reply::Enqueue(
                    CellModification { x, y, cell },
                ),
                FromClient::SetView { x, y, w, h } => final(self).view == (Viewport { x, y, w, h })
                    && final(self).sending == old(self).sending && !final(self).synced && r
                    == Reply::Nothing,
                FromClient::StartStream => final(self).view == old(self).view
                    && final(self).sending && final(self).synced && (match r {
                    Reply::Send(m) => is_full_refresh(m, *last_world, old(self).view),
                    _ => false,
                }),
            },
    {
        match msg {
            FromClient::ModifyCell { x, y, cell } => Reply::Enqueue(CellModification { x, y, cell }),
            FromClient::SetView { x, y, w, h } => {
                self.view = Viewport { x, y, w, h };
                self.synced = false;
                Reply::Nothing
            },
            FromClient::StartStream => {
                let m = full_refresh(last_world, self.view);
                self.sending = true;
                self.synced = true;
                Reply::Send(m)
            },
        }
    }

    /// Handles a new published version: nothing before the client asked for
    /// the stream, the perimeter while synced, else the whole viewport.
    pub fn on_world(&mut self, world: &World) -> (r: Option<FromServer>)
        ensures
            final(self).view == old(self).view,
            final(self).sending == old(self).sending,
            final(self).synced == (old(self).synced || old(self).sending),
            !old(self).sending ==> r is None,
            old(self).sending && old(self).synced ==> (match r {
                Some(m) => is_partial_refresh(m, *world, old(self).view),
                None => false,
            }),
            old(self).sending && !old(self).synced ==> (match r {
                Some(m) => is_full_refresh(m, *world, old(self).view),
                None => false,
            }),
    {
        if !self.sending {
            None
        } else if self.synced {
            let tiles = world.copy_perimeter(self.view.x, self.view.y, self.view.w, self.view.h);
            Some(FromServer::PartialRefresh { tiles })
        } else {
            let m = full_refresh(world, self.view);
            self.synced = true;
            Some(m)
        }
    }

    /// The bus dropped versions: the next one must be a full refresh.
    pub fn on_lagged(&mut self)
        ensures
            final(self).view == old(self).view,
            final(self).sending == old(self).sending,
            !final(self).synced,
    {
        self.synced = false;
    }
}

} // verus!
