use vstd::prelude::*;
use crate::error::Error;

verus! {

/// The index of the first of `keys`, from `i` on, equal to `key`.
pub open spec fn key_from(keys: Seq<String>, key: Seq<char>, i: int) -> Option<int>
    decreases keys.len() - i,
{
    if i < 0 || i >= keys.len() {
        None
    } else if keys[i]@ == key {
        Some(i)
    } else {
        key_from(keys, key, i + 1)
    }
}

/// What is found from `i` on is a key equal to `key` at or after `i`.
proof fn lemma_key_found(keys: Seq<String>, key: Seq<char>, i: int)
    ensures
        key_from(keys, key, i) matches Some(k) ==> i <= k < keys.len() && keys[k]@ == key,
    decreases keys.len() - i,
{
    if 0 <= i < keys.len() && keys[i]@ != key {
        lemma_key_found(keys, key, i + 1);
    }
}

/// The slot the server reads at step `i` of a pass over its channels: the first slot
/// at the first two steps, then each next slot in turn.
pub fn visit_slot(i: usize) -> (h: usize)
    ensures
        h == if i > 1 {
            i - 1
        } else {
            0
        },
{
    if i > 1 {
        i - 1
    } else {
        0
    }
}

/// Whether a failed read says that the channel is gone.
pub fn is_closed(e: &Error) -> (r: bool)
    ensures
        r <==> e.val@ == "closed"@,
{
    let closed = "closed".to_owned();
    e.val == closed
}

/// The channels the server reads requests from, by id, in the order they arrived.
pub struct ChannelBook {
    pub keys: Vec<String>,
}

impl ChannelBook {
    /// No channels.
    pub fn new() -> (b: ChannelBook)
        ensures
            b.keys@.len() == 0,
    {
        ChannelBook { keys: Vec::new() }
    }

    /// The number of steps of a pass over the channels: one more than there are.
    pub fn pass_len(&self) -> (n: usize)
        requires
            self.keys@.len() < usize::MAX,
        ensures
            n == self.keys@.len() + 1,
    {
        self.keys.len() + 1
    }

    /// The channel read at step `i` of a pass: none while there are no channels or past
    /// the last one.
    pub fn visit(&self, i: usize) -> (r: Option<&String>)
        ensures
            ({
                let h = if i > 1 {
                    i - 1
                } else {
                    0
                };
                if h < self.keys@.len() {
                    r == Some(&self.keys@[h])
                } else {
                    r is None
                }
            }),
    {
        let h = visit_slot(i);
        if h < self.keys.len() {
            Some(&self.keys[h])
        } else {
            None
        }
    }

    /// A new channel `id` joins, read after the others.
    pub fn register(&mut self, id: String)
        ensures
            final(self).keys@ == old(self).keys@.push(id),
    {
        self.keys.push(id);
    }

    /// The slot of the channel `id`, where responses to it are sent: the first with
    /// that id.
    pub fn route(&self, id: &String) -> (r: Option<usize>)
        ensures
            r matches Some(i) ==> key_from(self.keys@, id@, 0) == Some(i as int),
            r is None ==> key_from(self.keys@, id@, 0) is None,
    {
        let mut i: usize = 0;
        while i < self.keys.len()
            invariant
                i <= self.keys@.len(),
                key_from(self.keys@, id@, i as int) == key_from(self.keys@, id@, 0),
            decreases self.keys@.len() - i,
        {
            if self.keys[i] == *id {
                return Some(i);
            }
            i = i + 1;
        }
        None
    }

    /// After a failed read of the channel `id`: when the failure says that the channel
    /// is gone, the channel (its first slot) leaves the book. Whether it left.
    pub fn read_failed(&mut self, id: &String, e: &Error) -> (gone: bool)
        ensures
            gone <==> e.val@ == "closed"@,
            gone ==> match key_from(old(self).keys@, id@, 0) {
                Some(k) => final(self).keys@ == old(self).keys@.remove(k),
                None => final(self).keys@ == old(self).keys@,
            },
            !gone ==> final(self).keys@ == old(self).keys@,
    {
        if !is_closed(e) {
            return false;
        }
        match self.route(id) {
            Some(k) => {
                proof {
                    lemma_key_found(self.keys@, id@, 0);
                }
                self.keys.remove(k);
            },
            None => {},
        }
        true
    }
}

} // verus!
