//! The key-combo synthesizer: an ordered list of key tokens becomes the
//! exact sequence of key events to inject, in three passes — press the
//! named modifiers in the order encountered, strike the action keys, then
//! release the modifiers in the order they were pressed. Tokens outside the
//! vocabulary are skipped, never an error: a combo best-effort fires the
//! keys it understands.
use vstd::prelude::*;
use crate::keys::{Modifier, KeyCode, lower_seq, key_code_of, to_lower, resolve_modifier, resolve_key};
use crate::accel::{part_mod, is_mod_part};

verus! {

/// One synthetic key event to inject: press or release a modifier, click a
/// key of the table, or click a literal character.
#[derive(Clone, Copy, Debug, PartialEq, Eq, Structural)]
pub enum KeyEvent {
    Down(Modifier),
    Up(Modifier),
    ClickKey(KeyCode),
    ClickChar(u8),
}

/// The views of a list of tokens.
pub open spec fn token_views(v: Seq<Vec<u8>>) -> Seq<Seq<u8>> {
    v.map_values(|t: Vec<u8>| t@)
}

/// The press events of the first pass: one `Down` per modifier token, in
/// the order encountered, duplicates kept.
pub open spec fn down_events(tokens: Seq<Seq<u8>>) -> Seq<KeyEvent>
    decreases tokens.len(),
{
    if tokens.len() == 0 {
        Seq::empty()
    } else {
        down_events(tokens.drop_last()) + match part_mod(tokens.last()) {
            Some(m) => seq![KeyEvent::Down(m)],
            None => Seq::empty(),
        }
    }
}

/// The release events of the third pass: one `Up` per modifier token, in
/// the same order the presses were issued.
pub open spec fn up_events(tokens: Seq<Seq<u8>>) -> Seq<KeyEvent>
    decreases tokens.len(),
{
    if tokens.len() == 0 {
        Seq::empty()
    } else {
        up_events(tokens.drop_last()) + match part_mod(tokens.last()) {
            Some(m) => seq![KeyEvent::Up(m)],
            None => Seq::empty(),
        }
    }
}

/// What the second pass issues for one token: nothing for a modifier, a
/// literal-character click for any single-character token, a key click for
/// a longer token of the table, and nothing for a token outside it.
pub open spec fn click_event(p: Seq<u8>) -> Seq<KeyEvent> {
    let k = lower_seq(p);
    if is_mod_part(p) {
        Seq::empty()
    } else if k.len() == 1 {
        seq![KeyEvent::ClickChar(k[0])]
    } else {
        match key_code_of(k) {
            Some(c) => seq![KeyEvent::ClickKey(c)],
            None => Seq::empty(),
        }
    }
}

/// The click events of the second pass, in token order.
pub open spec fn click_events(tokens: Seq<Seq<u8>>) -> Seq<KeyEvent>
    decreases tokens.len(),
{
    if tokens.len() == 0 {
        Seq::empty()
    } else {
        click_events(tokens.drop_last()) + click_event(tokens.last())
    }
}

/// Everything a combo injects, in order: presses, then clicks, then
/// releases.
pub open spec fn synth_events(tokens: Seq<Seq<u8>>) -> Seq<KeyEvent> {
    down_events(tokens) + click_events(tokens) + up_events(tokens)
}

/// The two consumers of the key-token table stay in lockstep: a token the
/// parser accepts as an action key is clicked by the synthesizer (as a key
/// of the table or as a literal character), a modifier token is pressed and
/// released instead of clicked, and only tokens outside the whole
/// vocabulary produce nothing at all — and even those are skipped, never an
/// error.
pub proof fn lemma_parser_synthesizer_lockstep(p: Seq<u8>)
    ensures
        is_mod_part(p) ==> click_event(p).len() == 0,
        !is_mod_part(p) && key_code_of(lower_seq(p)) is Some ==> click_event(p).len() == 1,
        !is_mod_part(p) && lower_seq(p).len() == 1 ==> click_event(p).len() == 1,
{
}

/// The third pass mirrors the first: one release per press, for the same
/// modifiers, in the same order.
pub proof fn lemma_release_mirrors_press(tokens: Seq<Seq<u8>>)
    ensures
        up_events(tokens).len() == down_events(tokens).len(),
        forall|k: int|
            0 <= k < down_events(tokens).len() ==> exists|m: Modifier|
                #[trigger] down_events(tokens)[k] == KeyEvent::Down(m) && up_events(tokens)[k]
                    == KeyEvent::Up(m),
    decreases tokens.len(),
{
    if tokens.len() > 0 {
        let dl = tokens.drop_last();
        lemma_release_mirrors_press(dl);
        assert forall|k: int|
            0 <= k < down_events(tokens).len() implies exists|m: Modifier|
            #[trigger] down_events(tokens)[k] == KeyEvent::Down(m) && up_events(tokens)[k]
                == KeyEvent::Up(m) by {
            if k < down_events(dl).len() {
                assert(down_events(tokens)[k] == down_events(dl)[k]);
                assert(up_events(tokens)[k] == up_events(dl)[k]);
            } else {
                let m = part_mod(tokens.last())->Some_0;
                assert(down_events(tokens)[k] == KeyEvent::Down(m) && up_events(tokens)[k]
                    == KeyEvent::Up(m));
            }
        }
    }
}

/// Turn a key combo into the exact event sequence to inject.
pub fn synthesize_plan(keys: &Vec<Vec<u8>>) -> (r: Vec<KeyEvent>)
    ensures
        r@ == synth_events(token_views(keys@)),
{
    let ghost toks = token_views(keys@);
    let mut events: Vec<KeyEvent> = Vec::new();
    let mut held: Vec<Modifier> = Vec::new();
    let mut i: usize = 0;
    while i < keys.len()
        invariant
            toks == token_views(keys@),
            i <= keys.len(),
            keys@.len() == toks.len(),
            forall|j: int| 0 <= j < toks.len() ==> keys@[j]@ == toks[j],
            events@ == down_events(toks.take(i as int)),
            held@.map_values(|m: Modifier| KeyEvent::Up(m)) == up_events(toks.take(i as int)),
        decreases keys.len() - i,
    {
        proof {
            assert(toks.take(i + 1).drop_last() =~= toks.take(i as int));
            assert(toks.take(i + 1).last() == toks[i as int]);
        }
        let low = to_lower(keys[i].as_slice());
        match resolve_modifier(low.as_slice()) {
            Some(m) => {
                events.push(KeyEvent::Down(m));
                held.push(m);
                proof {
                    assert(events@ =~= down_events(toks.take(i + 1)));
                    assert(held@.map_values(|m: Modifier| KeyEvent::Up(m)) =~= up_events(
                        toks.take(i + 1),
                    ));
                }
            },
            None => {
                proof {
                    assert(events@ =~= down_events(toks.take(i + 1)));
                    assert(held@.map_values(|m: Modifier| KeyEvent::Up(m)) =~= up_events(
                        toks.take(i + 1),
                    ));
                }
            },
        }
        i = i + 1;
    }
    proof {
        assert(toks.take(toks.len() as int) =~= toks);
    }
    let mut i: usize = 0;
    while i < keys.len()
        invariant
            toks == token_views(keys@),
            i <= keys.len(),
            keys@.len() == toks.len(),
            forall|j: int| 0 <= j < toks.len() ==> keys@[j]@ == toks[j],
            events@ == down_events(toks) + click_events(toks.take(i as int)),
            held@.map_values(|m: Modifier| KeyEvent::Up(m)) == up_events(toks),
        decreases keys.len() - i,
    {
        proof {
            assert(toks.take(i + 1).drop_last() =~= toks.take(i as int));
            assert(toks.take(i + 1).last() == toks[i as int]);
        }
        let low = to_lower(keys[i].as_slice());
        match resolve_modifier(low.as_slice()) {
            Some(_) => {
                proof {
                    assert(events@ =~= down_events(toks) + click_events(toks.take(i + 1)));
                }
            },
            None => {
                if low.len() == 1 {
                    events.push(KeyEvent::ClickChar(low[0]));
                } else {
                    match resolve_key(low.as_slice()) {
                        Some(c) => {
                            events.push(KeyEvent::ClickKey(c));
                        },
                        None => {},
                    }
                }
                proof {
                    assert(events@ =~= down_events(toks) + click_events(toks.take(i + 1)));
                }
            },
        }
        i = i + 1;
    }
    proof {
        assert(toks.take(toks.len() as int) =~= toks);
    }
    let ghost mid = events@;
    let mut i: usize = 0;
    while i < held.len()
        invariant
            i <= held.len(),
            mid == down_events(toks) + click_events(toks),
            held@.map_values(|m: Modifier| KeyEvent::Up(m)) == up_events(toks),
            events@ == mid + up_events(toks).take(i as int),
        decreases held.len() - i,
    {
        events.push(KeyEvent::Up(held[i]));
        proof {
            assert(held@.map_values(|m: Modifier| KeyEvent::Up(m))[i as int] == KeyEvent::Up(
                held@[i as int],
            ));
            assert(events@ =~= mid + up_events(toks).take(i + 1));
        }
        i = i + 1;
    }
    proof {
        assert(held@.map_values(|m: Modifier| KeyEvent::Up(m)).len() == up_events(toks).len());
        assert(up_events(toks).take(up_events(toks).len() as int) =~= up_events(toks));
        assert(events@ =~= synth_events(toks));
    }
    events
}

} // verus!
