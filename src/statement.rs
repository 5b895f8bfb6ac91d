use vstd::prelude::*;

verus! {

/// One node of a statement: a reference (an IRI), a literal (its lexical
/// text, without type or language tag), or a blank node.
#[derive(Clone, Debug)]
pub enum Term {
    Reference(String),
    Literal(String),
    Blank(String),
}

/// One decoded statement: subject, predicate and object.
#[derive(Clone, Debug)]
pub struct Statement {
    pub subject: Term,
    pub predicate: Term,
    pub object: Term,
}

/// The statements that rdf's N-Triples parser reads from `text`, in the
/// order of the text, or nothing where the text is not N-Triples.
pub uninterp spec fn ntriples_of(text: Seq<char>) -> Option<Seq<Statement>>;

#[verifier::external_type_specification]
#[verifier::external_body]
pub struct ExRdfNode(rdf::node::Node);

/// Relies on rdf's node enum: converts each variant into the one of the same
/// kind, moving its text.
#[verifier::external_body]
fn term_of(n: &rdf::node::Node) -> Term {
    match n {
        rdf::node::Node::UriNode { uri } => Term::Reference(uri.to_string().clone()),
        rdf::node::Node::LiteralNode { literal, .. } => Term::Literal(literal.clone()),
        rdf::node::Node::BlankNode { id } => Term::Blank(id.clone()),
    }
}

/// Relies on rdf's `NTriplesParser::decode`: the triples of an N-Triples
/// text in the order in which they stand, or an error where the text does
/// not parse. The graph keeps the triples in a vector in that order.
#[verifier::external_body]
fn decode_ntriples(text: String) -> (r: Option<Vec<Statement>>)
    ensures
        r is Some <==> ntriples_of(text@) is Some,
        r is Some ==> r->Some_0@ == ntriples_of(text@)->Some_0,
{
    let mut parser = rdf::reader::n_triples_parser::NTriplesParser::from_string(text);
    match rdf::reader::rdf_parser::RdfParser::decode(&mut parser) {
        Ok(graph) => Some(graph.triples_iter().map(|t| Statement {
            subject: term_of(t.subject()),
            predicate: term_of(t.predicate()),
            object: term_of(t.object()),
        }).collect()),
        Err(_) => None,
    }
}

/// The lines of a group joined into one text, a line break between two
/// lines.
pub open spec fn joined(lines: Seq<String>) -> Seq<char>
    decreases lines.len(),
{
    if lines.len() == 0 {
        Seq::empty()
    } else if lines.len() == 1 {
        lines[0]@
    } else {
        joined(lines.drop_last()) + seq!['\n'] + lines.last()@
    }
}

/// Joins the lines of a group, a line break between two lines.
pub fn join_lines(lines: &Vec<String>) -> (r: String)
    ensures
        r@ == joined(lines@),
{
    let mut text = String::new();
    let mut i: usize = 0;
    while i < lines.len()
        invariant
            0 <= i <= lines@.len(),
            text@ == joined(lines@.take(i as int)),
        decreases lines@.len() - i,
    {
        proof {
            reveal_strlit("\n");
            assert(lines@.take(i + 1).drop_last() =~= lines@.take(i as int));
        }
        if i > 0 {
            text.append("\n");
        }
        text.append(lines[i].as_str());
        i = i + 1;
    }
    proof {
        assert(lines@.take(i as int) =~= lines@);
    }
    text
}

/// Decodes the lines of a group into statements, in order.
pub fn decode_group(lines: &Vec<String>) -> (r: Option<Vec<Statement>>)
    ensures
        r is Some <==> ntriples_of(joined(lines@)) is Some,
        r is Some ==> r->Some_0@ == ntriples_of(joined(lines@))->Some_0,
{
    decode_ntriples(join_lines(lines))
}

} // verus!
