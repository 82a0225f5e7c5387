//! Writing the answers of the protocol.
use vstd::prelude::*;
use crate::game::text::{decimal_text, push_decimal, push_signed, push_text, signed_text, text_of};
use crate::game::notation::texts_view;
use crate::uci::Uci;

verus! {

/// What an engine reports of its search; what is not there is not
/// reported.
pub struct Info {
    pub depth: Option<u32>,
    pub seldepth: Option<u32>,
    pub multipv: Option<u32>,
    pub score_cp: Option<i32>,
    pub score_mate: Option<i32>,
    pub hashfull: Option<u32>,
    pub time: Option<u64>,
    pub nodes: Option<u64>,
    pub nps: Option<u64>,
    pub pv: Option<Vec<String>>,
}

impl Default for Info {
    fn default() -> (r: Info)
        ensures
            r.depth.is_none(),
            r.seldepth.is_none(),
            r.multipv.is_none(),
            r.score_cp.is_none(),
            r.score_mate.is_none(),
            r.hashfull.is_none(),
            r.time.is_none(),
            r.nodes.is_none(),
            r.nps.is_none(),
            r.pv.is_none(),
    {
        Info {
            depth: None,
            seldepth: None,
            multipv: None,
            score_cp: None,
            score_mate: None,
            hashfull: None,
            time: None,
            nodes: None,
            nps: None,
            pv: None,
        }
    }
}

/// A label and a number behind it, where the number is there.
pub open spec fn labelled(label: Seq<char>, value: Option<nat>) -> Seq<char> {
    match value {
        Some(n) => label + decimal_text(n),
        None => Seq::empty(),
    }
}

/// A label and a number with its sign behind it, where the number is
/// there.
pub open spec fn labelled_signed(label: Seq<char>, value: Option<int>) -> Seq<char> {
    match value {
        Some(n) => label + signed_text(n),
        None => Seq::empty(),
    }
}

/// The texts with a blank between each two of them.
pub open spec fn joined(texts: Seq<Seq<char>>) -> Seq<char>
    decreases texts.len(),
{
    if texts.len() == 0 {
        Seq::empty()
    } else if texts.len() == 1 {
        texts[0]
    } else {
        joined(texts.drop_last()).push(' ') + texts.last()
    }
}

/// An option as a number without a type.
pub open spec fn as_nat<T: Integer>(value: Option<T>) -> Option<nat> {
    match value {
        Some(n) => Some(n as nat),
        None => None,
    }
}

/// An option as a number with a sign.
pub open spec fn as_int(value: Option<i32>) -> Option<int> {
    match value {
        Some(n) => Some(n as int),
        None => None,
    }
}

/// The line that reports a search: the word `info`, and for each entry
/// that is there its label and its value.
pub open spec fn info_text(info: Info) -> Seq<char> {
    "info"@ + labelled(" depth "@, as_nat(info.depth)) + labelled(
        " seldepth "@,
        as_nat(info.seldepth),
    ) + labelled(" multipv "@, as_nat(info.multipv)) + labelled_signed(
        " score cp "@,
        as_int(info.score_cp),
    ) + labelled_signed(" score mate "@, as_int(info.score_mate)) + labelled(
        " hashfull "@,
        as_nat(info.hashfull),
    ) + labelled(" time "@, as_nat(info.time)) + labelled(" nodes "@, as_nat(info.nodes))
        + labelled(" nps "@, as_nat(info.nps)) + match info.pv {
        Some(pv) => " pv "@ + joined(texts_view(pv@)),
        None => Seq::empty(),
    }
}

/// Adds a label and a number, where the number is there.
fn push_labelled(out: &mut Vec<char>, label: &str, value: Option<u64>)
    ensures
        final(out)@ == old(out)@ + labelled(label@, as_nat(value)),
{
    match value {
        Some(n) => {
            push_text(out, label);
            push_decimal(out, n);
            proof {
                assert(out@ =~= old(out)@ + labelled(label@, as_nat(value)));
            }
        },
        None => {
            proof {
                assert(out@ =~= old(out)@ + labelled(label@, as_nat(value)));
            }
        },
    }
}

/// Adds a label and a number with its sign, where the number is there.
fn push_labelled_signed(out: &mut Vec<char>, label: &str, value: Option<i32>)
    ensures
        final(out)@ == old(out)@ + labelled_signed(label@, as_int(value)),
{
    match value {
        Some(n) => {
            push_text(out, label);
            push_signed(out, n);
            proof {
                assert(out@ =~= old(out)@ + labelled_signed(label@, as_int(value)));
            }
        },
        None => {
            proof {
                assert(out@ =~= old(out)@ + labelled_signed(label@, as_int(value)));
            }
        },
    }
}

/// A number of 32 bits as one of 64.
fn widen(value: Option<u32>) -> (r: Option<u64>)
    ensures
        as_nat(r) == as_nat(value),
{
    match value {
        Some(n) => Some(n as u64),
        None => None,
    }
}

/// Adds the texts with a blank between each two of them.
fn push_joined(out: &mut Vec<char>, texts: &Vec<String>)
    ensures
        final(out)@ == old(out)@ + joined(texts_view(texts@)),
{
    let ghost all = texts_view(texts@);
    let mut at: usize = 0;
    proof {
        assert(all.take(0) =~= Seq::<Seq<char>>::empty());
        assert(out@ =~= old(out)@ + joined(all.take(0)));
    }
    while at < texts.len()
        invariant
            at <= texts@.len(),
            all == texts_view(texts@),
            out@ == old(out)@ + joined(all.take(at as int)),
        decreases texts@.len() - at,
    {
        let ghost before = out@;
        if at > 0 {
            out.push(' ');
        }
        push_text(out, texts[at].as_str());
        proof {
            assert(all.take(at + 1).drop_last() =~= all.take(at as int));
            assert(all.take(at + 1).last() == texts@[at as int]@);
            assert(out@ =~= old(out)@ + joined(all.take(at + 1)));
        }
        at = at + 1;
    }
    proof {
        assert(all.take(at as int) =~= all);
    }
}

/// A word and a text behind it.
fn line_of(word: &str, text: &str) -> (line: String)
    ensures
        line@ == word@ + text@,
{
    let mut out: Vec<char> = Vec::new();
    push_text(&mut out, word);
    push_text(&mut out, text);
    text_of(&out)
}

impl Uci {
    /// The line that names the author.
    pub fn id_author(&self, author: &str) -> (line: String)
        ensures
            line@ == "id author "@ + author@,
    {
        line_of("id author ", author)
    }

    /// The line that names the engine.
    pub fn id_name(&self, name: &str) -> (line: String)
        ensures
            line@ == "id name "@ + name@,
    {
        line_of("id name ", name)
    }

    /// The line that ends the engine's introduction.
    pub fn uciok(&self) -> (line: String)
        ensures
            line@ == "uciok"@ + ""@,
    {
        line_of("uciok", "")
    }

    /// The line that says that the engine is ready.
    pub fn readyok(&self) -> (line: String)
        ensures
            line@ == "readyok"@ + ""@,
    {
        line_of("readyok", "")
    }

    /// The line that names the move that the engine plays.
    pub fn bestmove(&self, act: &str) -> (line: String)
        ensures
            line@ == "bestmove "@ + act@,
    {
        line_of("bestmove ", act)
    }

    /// The line that reports a search.
    pub fn info(&self, info: &Info) -> (line: String)
        ensures
            line@ == info_text(*info),
    {
        let mut out: Vec<char> = Vec::new();
        push_text(&mut out, "info");
        push_labelled(&mut out, " depth ", widen(info.depth));
        push_labelled(&mut out, " seldepth ", widen(info.seldepth));
        push_labelled(&mut out, " multipv ", widen(info.multipv));
        push_labelled_signed(&mut out, " score cp ", info.score_cp);
        push_labelled_signed(&mut out, " score mate ", info.score_mate);
        push_labelled(&mut out, " hashfull ", widen(info.hashfull));
        push_labelled(&mut out, " time ", info.time);
        push_labelled(&mut out, " nodes ", info.nodes);
        push_labelled(&mut out, " nps ", info.nps);
        match &info.pv {
            Some(pv) => {
                push_text(&mut out, " pv ");
                push_joined(&mut out, pv);
                proof {
                    assert(out@ =~= info_text(*info));
                }
            },
            None => {
                proof {
                    assert(out@ =~= info_text(*info));
                }
            },
        }
        text_of(&out)
    }
}

} // verus!
