use vstd::prelude::*;

verus! {

/// One key of an object and the value it holds.
pub struct Entry {
    pub key: String,
    pub value: Node,
}

/// A loosely typed input document: objects of keyed values, texts, numbers
/// (kept as their decimal literal, so no precision is lost), and anything
/// else that carries no amount (null, booleans, arrays).
pub enum Node {
    Object(Vec<Entry>),
    Text(String),
    Number(String),
    Other,
}

/// The value of the first entry with the given key.
pub open spec fn entry_value(es: Seq<Entry>, key: Seq<char>) -> Option<Node>
    decreases es.len(),
{
    if es.len() == 0 {
        None
    } else if es[0].key@ == key {
        Some(es[0].value)
    } else {
        entry_value(es.drop_first(), key)
    }
}

/// The value that an object holds under `key`; nothing for other nodes.
pub open spec fn child_of(n: Node, key: Seq<char>) -> Option<Node> {
    match n {
        Node::Object(es) => entry_value(es@, key),
        _ => None,
    }
}

/// The node reached from `n` by following `path` key by key, if every key
/// is present.
pub open spec fn lookup(n: Node, path: Seq<Seq<char>>) -> Option<Node>
    decreases path.len(),
{
    if path.len() == 0 {
        Some(n)
    } else {
        match lookup(n, path.drop_last()) {
            Some(m) => child_of(m, path.last()),
            None => None,
        }
    }
}

/// The keys of a path as character sequences.
pub open spec fn key_views(keys: Seq<String>) -> Seq<Seq<char>> {
    keys.map_values(|k: String| k@)
}

/// A found node reference stands for the node that the model gives.
pub open spec fn refers_to(r: Option<&Node>, m: Option<Node>) -> bool {
    match r {
        Some(x) => m == Some(*x),
        None => m is None,
    }
}

/// Once a prefix of a path is missing, every longer prefix is missing too.
pub proof fn lemma_lookup_missing_prefix(n: Node, path: Seq<Seq<char>>, i: int, j: int)
    requires
        0 <= i <= j <= path.len(),
        lookup(n, path.take(i)) is None,
    ensures
        lookup(n, path.take(j)) is None,
    decreases j - i,
{
    if i < j {
        lemma_lookup_missing_prefix(n, path, i, j - 1);
        assert(path.take(j).drop_last() =~= path.take(j - 1));
    }
}

/// Whether two texts hold the same characters.
pub fn same_text(a: &str, b: &str) -> (r: bool)
    ensures
        r == (a@ == b@),
{
    let n = a.unicode_len();
    if n != b.unicode_len() {
        return false;
    }
    let mut i: usize = 0;
    while i < n
        invariant
            n == a@.len(),
            n == b@.len(),
            i <= n,
            forall|j: int| 0 <= j < i ==> a@[j] == b@[j],
        decreases n - i,
    {
        if a.get_char(i) != b.get_char(i) {
            return false;
        }
        i = i + 1;
    }
    assert(a@ =~= b@);
    true
}

impl Node {
    /// The value that this object holds under `key` (the first such entry).
    pub fn get(&self, key: &str) -> (r: Option<&Node>)
        ensures
            refers_to(r, child_of(*self, key@)),
    {
        match self {
            Node::Object(es) => {
                let n = es.len();
                let mut i: usize = 0;
                assert(es@.skip(0) =~= es@);
                while i < n
                    invariant
                        n == es@.len(),
                        i <= n,
                        child_of(*self, key@) == entry_value(es@, key@),
                        entry_value(es@, key@) == entry_value(es@.skip(i as int), key@),
                    decreases n - i,
                {
                    assert(es@.skip(i as int).drop_first() =~= es@.skip(i as int + 1));
                    assert(es@.skip(i as int)[0] == es@[i as int]);
                    if same_text(es[i].key.as_str(), key) {
                        return Some(&es[i].value);
                    }
                    i = i + 1;
                }
                None
            },
            _ => None,
        }
    }

    /// The node reached by following the first `upto` keys from this one.
    pub fn resolve(&self, keys: &Vec<String>, upto: usize) -> (r: Option<&Node>)
        requires
            upto <= keys@.len(),
        ensures
            refers_to(r, lookup(*self, key_views(keys@).take(upto as int))),
    {
        let mut cur: &Node = self;
        let mut i: usize = 0;
        assert(key_views(keys@).take(0) =~= Seq::<Seq<char>>::empty());
        while i < upto
            invariant
                upto <= keys@.len(),
                i <= upto,
                lookup(*self, key_views(keys@).take(i as int)) == Some(*cur),
            decreases upto - i,
        {
            let ghost kv = key_views(keys@);
            assert(kv.take(i as int + 1).drop_last() =~= kv.take(i as int));
            assert(kv.take(i as int + 1).last() == keys@[i as int]@);
            match cur.get(keys[i].as_str()) {
                Some(next) => {
                    cur = next;
                },
                None => {
                    proof {
                        lemma_lookup_missing_prefix(*self, kv, i as int + 1, upto as int);
                    }
                    return None;
                },
            }
            i = i + 1;
        }
        Some(cur)
    }
}

} // verus!
