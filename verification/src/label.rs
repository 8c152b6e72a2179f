//! Display labels: the last component of a path.

use vstd::prelude::*;

verus! {

/// The separator between the components of a path.
pub const SEPARATOR: char = '/';

/// What follows the last separator of `path`; all of `path` when it holds no
/// separator, and nothing when it ends in one.
pub open spec fn last_component(path: Seq<char>) -> Seq<char>
    decreases path.len(),
{
    if path.len() == 0 || path.last() == SEPARATOR {
        Seq::empty()
    } else {
        last_component(path.drop_last()).push(path.last())
    }
}

/// The display label of a path: its last component, or the whole path when
/// that component is empty.
pub open spec fn label_of(path: Seq<char>) -> Seq<char> {
    if last_component(path).len() == 0 {
        path
    } else {
        last_component(path)
    }
}

/// A path without a separator is its own last component.
pub proof fn lemma_last_component_plain(path: Seq<char>)
    requires
        !path.contains(SEPARATOR),
    ensures
        last_component(path) == path,
    decreases path.len(),
{
    if path.len() > 0 {
        let front = path.drop_last();
        assert(path[path.len() - 1] == path.last());
        assert forall|i: int| 0 <= i < front.len() implies front[i] != SEPARATOR by {
            assert(path[i] == front[i]);
        }
        lemma_last_component_plain(front);
        assert(front.push(path.last()) =~= path);
    } else {
        assert(path =~= Seq::empty());
    }
}

/// Whatever stands before the last separator, the last component is what
/// follows it.
pub proof fn lemma_last_component_split(head: Seq<char>, tail: Seq<char>)
    requires
        !tail.contains(SEPARATOR),
    ensures
        last_component(head + seq![SEPARATOR] + tail) == tail,
    decreases tail.len(),
{
    let whole = head + seq![SEPARATOR] + tail;
    if tail.len() == 0 {
        assert(whole.last() == SEPARATOR);
        assert(tail =~= Seq::empty());
    } else {
        let front = tail.drop_last();
        assert(tail[tail.len() - 1] == tail.last());
        assert(whole.last() == tail.last());
        assert forall|i: int| 0 <= i < front.len() implies front[i] != SEPARATOR by {
            assert(tail[i] == front[i]);
        }
        lemma_last_component_split(head, front);
        assert(whole.drop_last() =~= head + seq![SEPARATOR] + front);
        assert(front.push(tail.last()) =~= tail);
    }
}

/// `str::rsplit_once` with a character as the delimiter. Trusted: when the
/// text does not hold the delimiter the result is `None`; otherwise it is
/// the text before the last occurrence of the delimiter and the text after
/// it, so the second part does not hold the delimiter.
#[verifier::external_body]
fn split_at_last(text: &str, delimiter: char) -> (parts: Option<(&str, &str)>)
    ensures
        match parts {
            None => !text@.contains(delimiter),
            Some((head, tail)) => text@ == head@ + seq![delimiter] + tail@ && !tail@.contains(
                delimiter,
            ),
        },
{
    text.rsplit_once(delimiter)
}

/// The display label of `path`.
pub fn label(path: &str) -> (name: String)
    ensures
        name@ == label_of(path@),
{
    match split_at_last(path, SEPARATOR) {
        None => {
            proof {
                lemma_last_component_plain(path@);
            }
            path.to_owned()
        },
        Some((head, tail)) => {
            proof {
                lemma_last_component_split(head@, tail@);
            }
            if tail.is_empty() {
                path.to_owned()
            } else {
                tail.to_owned()
            }
        },
    }
}

} // verus!
