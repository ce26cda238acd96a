use vstd::prelude::*;

verus! {

/// The mathematical value of a triple: its subject, relation and object labels.
pub type TripleModel = (Seq<char>, Seq<char>, Seq<char>);

/// A (subject, relation, object) statement of the knowledge graph.
#[derive(Clone, Debug, Eq, Hash)]
pub struct Triple(String, String, String);

impl View for Triple {
    type V = TripleModel;

    closed spec fn view(&self) -> TripleModel {
        (self.0@, self.1@, self.2@)
    }
}

impl PartialEq for Triple {
    fn eq(&self, other: &Triple) -> (r: bool) {
        self.0 == other.0 && self.1 == other.1 && self.2 == other.2
    }
}

impl vstd::std_specs::cmp::PartialEqSpecImpl for Triple {
    open spec fn obeys_eq_spec() -> bool {
        true
    }

    open spec fn eq_spec(&self, other: &Triple) -> bool {
        self@ == other@
    }
}

impl Triple {
    /// Create a new subject-relation-object triple.
    pub fn new(s: String, r: String, o: String) -> (t: Triple)
        ensures
            t@ == (s@, r@, o@),
    {
        Triple(s, r, o)
    }

    /// The subject of the triple.
    pub fn subject(&self) -> (r: &str)
        ensures
            r@ == self@.0,
    {
        self.0.as_str()
    }

    /// The relation (or predicate) of the triple.
    pub fn relation(&self) -> (r: &str)
        ensures
            r@ == self@.1,
    {
        self.1.as_str()
    }

    /// The object of the triple.
    pub fn object(&self) -> (r: &str)
        ensures
            r@ == self@.2,
    {
        self.2.as_str()
    }

    /// The readable form `(subject -- relation -- object)`.
    pub fn render(&self) -> (r: String)
        ensures
            r@ == render_triple(self@),
    {
        let sep = " -- ";
        let mut out = String::from_str("(");
        out.append(self.0.as_str());
        out.append(sep);
        out.append(self.1.as_str());
        out.append(sep);
        out.append(self.2.as_str());
        out.append(")");
        proof {
            reveal_strlit("(");
            reveal_strlit(" -- ");
            reveal_strlit(")");
        }
        out
    }
}

/// The text `(subject -- relation -- object)` of a triple.
pub open spec fn render_triple(t: TripleModel) -> Seq<char> {
    seq!['('] + t.0 + seq![' ', '-', '-', ' '] + t.1 + seq![' ', '-', '-', ' '] + t.2 + seq![')']
}

} // verus!
