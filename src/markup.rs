//! A markup tree held as an arena in document order: the descendants of the
//! node at `i` are the nodes `i + 1 .. end`, and each node knows its parent.
use crate::text::{chars_of, matches_at, occurs_at};
use vstd::prelude::*;
use vstd::string::StringExecFns;

verus! {

pub struct Attr {
    pub name: String,
    pub value: String,
}

pub enum NodeKind {
    Element { tag: String, attrs: Vec<Attr> },
    Text { text: String },
}

pub struct Node {
    pub kind: NodeKind,
    /// The index of the parent node, if any.
    pub parent: Option<usize>,
    /// One past the index of the last descendant.
    pub end: usize,
}

pub struct Document {
    pub nodes: Vec<Node>,
}

/// ASCII white space as markup uses it between class names.
pub open spec fn is_markup_space(c: char) -> bool {
    c == ' ' || c == '\t' || c == '\n' || c == '\u{c}' || c == '\r'
}

/// Whether `tok` stands in `s` at `k` as a whole white-space separated word.
pub open spec fn token_at(s: Seq<char>, tok: Seq<char>, k: int) -> bool {
    &&& occurs_at(s, tok, k)
    &&& (k == 0 || is_markup_space(s[k - 1]))
    &&& (k + tok.len() == s.len() || is_markup_space(s[k + tok.len()]))
}

/// Whether the white-space separated list `s` holds the word `tok`.
pub open spec fn has_token(s: Seq<char>, tok: Seq<char>) -> bool {
    tok.len() > 0 && exists|k: int| token_at(s, tok, k)
}

/// The value of the first attribute from `k` on that is named `name`.
pub open spec fn attr_from(attrs: Seq<Attr>, name: Seq<char>, k: int) -> Option<Seq<char>>
    decreases attrs.len() - k,
{
    if k < 0 || k >= attrs.len() {
        None
    } else if attrs[k].name@ == name {
        Some(attrs[k].value@)
    } else {
        attr_from(attrs, name, k + 1)
    }
}

impl Document {
    pub open spec fn len(&self) -> int {
        self.nodes@.len() as int
    }

    pub open spec fn end_of(&self, i: int) -> int {
        self.nodes@[i].end as int
    }

    /// Every node's descendants lie inside the arena, after it, and its
    /// parent comes before it.
    pub open spec fn wf(&self) -> bool {
        forall|i: int|
            0 <= i < self.len() ==> i < #[trigger] self.end_of(i) <= self.len() && (
            self.nodes@[i].parent matches Some(p) ==> p < i)
    }

    /// Whether the node at `i` is an element named `tag`.
    pub open spec fn is_elem(&self, i: int, tag: Seq<char>) -> bool {
        self.nodes@[i].kind matches NodeKind::Element { tag: t, .. } && t@ == tag
    }

    pub open spec fn attr_of(&self, i: int, name: Seq<char>) -> Option<Seq<char>> {
        match self.nodes@[i].kind {
            NodeKind::Element { attrs, .. } => attr_from(attrs@, name, 0),
            NodeKind::Text { .. } => None,
        }
    }

    /// The class attribute of the node at `i`; empty where it has none.
    pub open spec fn class_of(&self, i: int) -> Seq<char> {
        match self.attr_of(i, "class"@) {
            Some(v) => v,
            None => Seq::empty(),
        }
    }

    pub open spec fn has_class(&self, i: int, tok: Seq<char>) -> bool {
        has_token(self.class_of(i), tok)
    }

    /// The text that the node at `i` holds itself.
    pub open spec fn own_text(&self, i: int) -> Seq<char> {
        match self.nodes@[i].kind {
            NodeKind::Text { text } => text@,
            NodeKind::Element { .. } => Seq::empty(),
        }
    }

    /// The text of the nodes `lo..hi`, in document order.
    pub open spec fn text_in(&self, lo: int, hi: int) -> Seq<char>
        decreases hi - lo,
    {
        if hi <= lo {
            Seq::empty()
        } else {
            self.text_in(lo, hi - 1) + self.own_text(hi - 1)
        }
    }

    /// The text content of the node at `i`: its own and its descendants'.
    pub open spec fn text_of(&self, i: int) -> Seq<char> {
        self.text_in(i, self.end_of(i))
    }

    /// An empty document.
    pub fn new() -> (r: Self)
        ensures
            r.wf(),
            r.len() == 0,
    {
        Document { nodes: Vec::new() }
    }

    /// Appends a node under `parent` (open: its descendants follow it until
    /// `close`) and returns its index.
    pub fn push_node(&mut self, kind: NodeKind, parent: Option<usize>) -> (r: usize)
        requires
            old(self).wf(),
            old(self).len() < usize::MAX,
            parent matches Some(p) ==> p < old(self).len(),
        ensures
            final(self).wf(),
            r == old(self).len(),
            final(self).nodes@ == old(self).nodes@.push(Node { kind, parent, end: (r + 1) as usize }),
    {
        let r = self.nodes.len();
        self.nodes.push(Node { kind, parent, end: r + 1 });
        assert forall|i: int| 0 <= i < self.len() implies i < #[trigger] self.end_of(i) <= self.len()
            && (self.nodes@[i].parent matches Some(p) ==> p < i) by {
            if i < r {
                assert(old(self).end_of(i) == self.end_of(i));
            }
        }
        r
    }

    /// Closes the node at `i`: its descendants are the nodes pushed after it.
    pub fn close(&mut self, i: usize)
        requires
            old(self).wf(),
            i < old(self).len(),
        ensures
            final(self).wf(),
            final(self).nodes@.len() == old(self).nodes@.len(),
            forall|j: int|
                0 <= j < old(self).len() && j != i ==> final(self).nodes@[j] == old(self).nodes@[j],
            final(self).nodes@[i as int].kind == old(self).nodes@[i as int].kind,
            final(self).nodes@[i as int].parent == old(self).nodes@[i as int].parent,
            final(self).nodes@[i as int].end == old(self).len(),
    {
        let n = self.nodes.len();
        self.nodes[i].end = n;
        assert forall|j: int| 0 <= j < self.len() implies j < #[trigger] self.end_of(j) <= self.len()
            && (self.nodes@[j].parent matches Some(p) ==> p < j) by {
            if j != i {
                assert(old(self).end_of(j) == self.end_of(j));
            } else {
                assert(j < old(self).end_of(j));
            }
        }
    }

    /// Checks `wf`.
    pub fn well_formed(&self) -> (r: bool)
        ensures
            r == self.wf(),
    {
        let n = self.nodes.len();
        let mut i: usize = 0;
        while i < n
            invariant
                i <= n == self.len(),
                forall|j: int|
                    0 <= j < i ==> j < #[trigger] self.end_of(j) <= self.len() && (
                    self.nodes@[j].parent matches Some(p) ==> p < j),
            decreases n - i,
        {
            let node = &self.nodes[i];
            if node.end <= i || node.end > n {
                assert(!(i < self.end_of(i as int) <= self.len()));
                return false;
            }
            match node.parent {
                Some(p) => {
                    if p >= i {
                        assert(i < self.end_of(i as int));
                        return false;
                    }
                },
                None => {},
            }
            i = i + 1;
        }
        true
    }

    /// Whether the node at `i` is an element named `tag`.
    pub fn is_element(&self, i: usize, tag: &str) -> (r: bool)
        requires
            i < self.len(),
        ensures
            r == self.is_elem(i as int, tag@),
    {
        match &self.nodes[i].kind {
            NodeKind::Element { tag: t, .. } => {
                let lit = String::from_str(tag);
                t.eq(&lit)
            },
            NodeKind::Text { .. } => false,
        }
    }

    /// The value of the attribute `name` of the node at `i`.
    pub fn attr(&self, i: usize, name: &str) -> (r: Option<String>)
        requires
            i < self.len(),
        ensures
            r matches Some(v) ==> self.attr_of(i as int, name@) == Some(v@),
            r is None ==> self.attr_of(i as int, name@) is None,
    {
        match &self.nodes[i].kind {
            NodeKind::Element { attrs, .. } => {
                let lit = String::from_str(name);
                let mut k: usize = 0;
                assert(self.attr_of(i as int, name@) == attr_from(attrs@, name@, 0));
                while k < attrs.len()
                    invariant
                        k <= attrs.len(),
                        lit@ == name@,
                        self.attr_of(i as int, name@) == attr_from(attrs@, name@, 0),
                        attr_from(attrs@, name@, 0) == attr_from(attrs@, name@, k as int),
                    decreases attrs.len() - k,
                {
                    if attrs[k].name.eq(&lit) {
                        let v = attrs[k].value.clone();
                        assert(attrs@[k as int].name@ == name@);
                        assert(attr_from(attrs@, name@, k as int) == Some(attrs@[k as int].value@));
                        return Some(v);
                    }
                    k = k + 1;
                }
                None
            },
            NodeKind::Text { .. } => None,
        }
    }

    /// The characters of the class attribute of the node at `i`.
    pub fn class_chars(&self, i: usize) -> (r: Vec<char>)
        requires
            i < self.len(),
        ensures
            r@ == self.class_of(i as int),
    {
        match self.attr(i, "class") {
            Some(v) => chars_of(v.as_str()),
            None => Vec::new(),
        }
    }

    /// Whether the class list of the node at `i` holds the word `tok`.
    pub fn has_class_exec(&self, i: usize, tok: &str) -> (r: bool)
        requires
            i < self.len(),
        ensures
            r == self.has_class(i as int, tok@),
    {
        let s = self.class_chars(i);
        let t = chars_of(tok);
        if t.len() == 0 || t.len() > s.len() {
            return false;
        }
        let last: usize = s.len() - t.len();
        let mut k: usize = 0;
        loop
            invariant
                k <= last,
                last + t.len() == s.len(),
                t.len() > 0,
                s@ == self.class_of(i as int),
                t@ == tok@,
                forall|m: int| 0 <= m < k ==> !token_at(s@, t@, m),
            decreases last - k,
        {
            if matches_at(&s, &t, k) && (k == 0 || is_space_exec(s[k - 1])) && (k + t.len()
                == s.len() || is_space_exec(s[k + t.len()])) {
                assert(token_at(s@, t@, k as int));
                return true;
            }
            if k == last {
                assert forall|m: int| !token_at(s@, t@, m) by {
                    if 0 <= m && m + t@.len() <= s@.len() {
                        assert(m <= k);
                    }
                }
                assert(!has_token(s@, t@));
                return false;
            }
            k = k + 1;
        }
    }

    /// The text content of the node at `i`.
    pub fn text_chars(&self, i: usize) -> (r: Vec<char>)
        requires
            self.wf(),
            i < self.len(),
        ensures
            r@ == self.text_of(i as int),
    {
        let end = self.nodes[i].end;
        assert(i < self.end_of(i as int) <= self.len());
        let mut out: Vec<char> = Vec::new();
        let mut k: usize = i;
        while k < end
            invariant
                i <= k <= end <= self.len(),
                out@ == self.text_in(i as int, k as int),
            decreases end - k,
        {
            match &self.nodes[k].kind {
                NodeKind::Text { text } => {
                    let cs = chars_of(text.as_str());
                    let mut j: usize = 0;
                    let ghost before = out@;
                    while j < cs.len()
                        invariant
                            j <= cs.len(),
                            out@ == before + cs@.subrange(0, j as int),
                        decreases cs.len() - j,
                    {
                        out.push(cs[j]);
                        j = j + 1;
                    }
                    assert(cs@.subrange(0, cs.len() as int) =~= cs@);
                },
                NodeKind::Element { .. } => {
                    assert(out@ + self.own_text(k as int) =~= out@);
                },
            }
            k = k + 1;
        }
        out
    }
}

fn is_space_exec(c: char) -> (r: bool)
    ensures
        r == is_markup_space(c),
{
    c == ' ' || c == '\t' || c == '\n' || c == '\u{c}' || c == '\r'
}

} // verus!
