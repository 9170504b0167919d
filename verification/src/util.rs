//! Identities, room tokens, and the choice-list parsing used when a room is
//! created.

use vstd::prelude::*;

verus! {

/// A stable client identity (one voter): the 128-bit value of the UUID that
/// the client supplies and keeps across reconnects. The identity, not the
/// connection, owns a ballot.
#[derive(Clone, Copy, PartialEq, Eq, Structural, Debug, Hash)]
pub struct ClientId(pub u128);

/// An unguessable token naming one voting room.
#[derive(Debug)]
pub struct RoomId(pub String);

/// ASCII digit or letter.
pub open spec fn is_alphanumeric_char(c: char) -> bool {
    ||| ('0' as u32) <= c as u32 <= ('9' as u32)
    ||| ('A' as u32) <= c as u32 <= ('Z' as u32)
    ||| ('a' as u32) <= c as u32 <= ('z' as u32)
}

/// Relies on rand's `Alphanumeric` distribution sampled through
/// `SampleString::sample_string`: the result holds exactly `len` characters,
/// each an ASCII digit or letter, whatever the generator yields.
#[verifier::external_body]
fn random_alphanumeric(len: usize) -> (r: String)
    ensures
        r@.len() == len,
        forall|i: int| 0 <= i < r@.len() ==> is_alphanumeric_char(#[trigger] r@[i]),
{
    rand::distr::SampleString::sample_string(&rand::distr::Alphanumeric, &mut rand::rng(), len)
}

impl RoomId {
    /// A fresh room token: twenty random alphanumeric characters.
    pub fn new_random() -> (r: RoomId)
        ensures
            r.0@.len() == 20,
            forall|i: int| 0 <= i < r.0@.len() ==> is_alphanumeric_char(#[trigger] r.0@[i]),
    {
        RoomId(random_alphanumeric(20))
    }

    /// Whether two room tokens name the same room.
    pub fn same_as(&self, other: &RoomId) -> (r: bool)
        ensures
            r == (self.0@ == other.0@),
    {
        self.0 == other.0
    }

    /// A duplicate of this token.
    pub fn duplicate(&self) -> (r: RoomId)
        ensures
            r.0@ == self.0@,
    {
        RoomId(self.0.clone())
    }
}

/// The character sequences of a list of strings.
pub open spec fn strs_view(v: Seq<String>) -> Seq<Seq<char>> {
    v.map_values(|s: String| s@)
}

/// What `str::trim` returns for this character sequence.
pub uninterp spec fn trimmed_of(s: Seq<char>) -> Seq<char>;

/// Relies on `str::trim`: the result is the input without leading and
/// trailing whitespace, so it depends on the characters alone, is never
/// longer than the input, and empty input stays empty.
#[verifier::external_body]
fn trim_str(s: &String) -> (r: String)
    ensures
        r@ == trimmed_of(s@),
        r@.len() <= s@.len(),
        s@.len() == 0 ==> r@.len() == 0,
{
    s.trim().to_string()
}

/// Relies on `String`'s `FromIterator<char>`: collecting characters yields
/// the string of exactly those characters in order.
#[verifier::external_body]
fn chars_to_string(v: &Vec<char>) -> (r: String)
    ensures
        r@ == v@,
{
    v.iter().collect()
}

/// The lines of `s`, split on newline characters, in order. A trailing
/// newline yields a final empty line.
pub open spec fn split_lines_spec(s: Seq<char>) -> Seq<Seq<char>>
    decreases s.len(),
{
    if s.len() == 0 {
        seq![Seq::empty()]
    } else {
        let prefix = split_lines_spec(s.drop_last());
        if s.last() == '\n' {
            prefix.push(Seq::empty())
        } else {
            prefix.update(prefix.len() - 1, prefix.last().push(s.last()))
        }
    }
}

proof fn lemma_split_lines_nonempty(s: Seq<char>)
    ensures
        split_lines_spec(s).len() >= 1,
    decreases s.len(),
{
    if s.len() != 0 {
        lemma_split_lines_nonempty(s.drop_last());
    }
}

/// The labels kept from a list of lines: each line trimmed, blank results
/// discarded, order kept.
pub open spec fn choice_labels(ls: Seq<Seq<char>>) -> Seq<Seq<char>>
    decreases ls.len(),
{
    if ls.len() == 0 {
        Seq::empty()
    } else {
        let prefix = choice_labels(ls.drop_last());
        let t = trimmed_of(ls.last());
        if t.len() != 0 {
            prefix.push(t)
        } else {
            prefix
        }
    }
}

/// The choice labels named by the body of a new-room request.
pub open spec fn choices_of_form(s: Seq<char>) -> Seq<Seq<char>> {
    choice_labels(split_lines_spec(s))
}

/// Parse the body of a new-room request: one choice label per line, labels
/// trimmed, blank lines discarded.
pub fn parse_choices(form: &String) -> (r: Vec<String>)
    ensures
        strs_view(r@) == choices_of_form(form@),
{
    let ghost whole = form@;
    let mut r: Vec<String> = Vec::new();
    let mut cur: Vec<char> = Vec::new();
    let ghost mut closed: Seq<Seq<char>> = Seq::empty();
    let mut i: usize = 0;
    proof {
        assert(whole.take(0) =~= Seq::<char>::empty());
        assert(split_lines_spec(whole.take(0)) =~= closed.push(cur@));
        assert(strs_view(r@) =~= choice_labels(closed));
    }
    while i < form.as_str().unicode_len()
        invariant
            i <= whole.len(),
            whole == form@,
            split_lines_spec(whole.take(i as int)) == closed.push(cur@),
            strs_view(r@) == choice_labels(closed),
        decreases whole.len() - i,
    {
        let c = form.as_str().get_char(i);
        proof {
            assert(whole.take(i + 1).drop_last() =~= whole.take(i as int));
            assert(whole.take(i + 1).last() == c);
        }
        if c == '\n' {
            let line = chars_to_string(&cur);
            let t = trim_str(&line);
            let ghost closed0 = closed;
            proof {
                closed = closed.push(cur@);
                assert(closed.drop_last() =~= closed0);
            }
            if t.as_str().unicode_len() > 0 {
                let ghost r0 = r@;
                r.push(t);
                proof {
                    assert(closed.drop_last() =~= closed0);
                    assert(strs_view(r@) =~= strs_view(r0).push(t@));
                    assert(choice_labels(closed) == choice_labels(closed0).push(trimmed_of(cur@)));
                }
            } else {
                proof {
                    assert(closed.drop_last() =~= closed0);
                    assert(choice_labels(closed) == choice_labels(closed0));
                }
            }
            cur = Vec::new();
            proof {
                assert(split_lines_spec(whole.take(i + 1)) =~= closed.push(cur@));
            }
        } else {
            cur.push(c);
            proof {
                let prev = split_lines_spec(whole.take(i as int));
                lemma_split_lines_nonempty(whole.take(i as int));
                assert(split_lines_spec(whole.take(i + 1))
                    =~= prev.update(prev.len() - 1, prev.last().push(c)));
                assert(prev.last() == cur@.drop_last());
                assert(cur@.drop_last().push(c) =~= cur@);
                assert(split_lines_spec(whole.take(i + 1)) =~= closed.push(cur@));
            }
        }
        i = i + 1;
    }
    proof {
        assert(whole.take(whole.len() as int) =~= whole);
    }
    // The final (unterminated) line.
    let line = chars_to_string(&cur);
    let t = trim_str(&line);
    let ghost closed0 = closed;
    proof {
        closed = closed.push(cur@);
        assert(closed.drop_last() =~= closed0);
        assert(closed == split_lines_spec(whole));
    }
    if t.as_str().unicode_len() > 0 {
        let ghost r0 = r@;
        r.push(t);
        proof {
            assert(strs_view(r@) =~= strs_view(r0).push(t@));
            assert(choice_labels(closed) == choice_labels(closed0).push(trimmed_of(cur@)));
        }
    } else {
        proof {
            assert(choice_labels(closed) == choice_labels(closed0));
        }
    }
    r
}

} // verus!
