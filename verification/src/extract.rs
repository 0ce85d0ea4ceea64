use crate::bytes_order::push_all;
use crate::errors::ExtractError;
use crate::record::{field_string, json_decode, Record};
use vstd::prelude::*;

verus! {

/// True when the byte never occurs in `f`; a `.` switches the whole dataset
/// to the path-expression strategy.
pub open spec fn is_dot_free(f: Seq<u8>) -> bool {
    forall|i: int| 0 <= i < f.len() ==> f[i] != 46u8
}

/// The literal strategy applies when every key-field descriptor is free of
/// expression syntax.
pub open spec fn literal_applies(fields: Seq<Vec<u8>>) -> bool {
    forall|i: int| 0 <= i < fields.len() ==> is_dot_free(#[trigger] fields[i]@)
}

pub open spec fn is_ident_start(c: u8) -> bool {
    (65 <= c <= 90) || (97 <= c <= 122) || c == 95
}

pub open spec fn is_ident_char(c: u8) -> bool {
    is_ident_start(c) || (48 <= c <= 57)
}

/// A descriptor the expression grammar reads as one unquoted identifier.
pub open spec fn bare_identifier(f: Seq<u8>) -> bool {
    f.len() > 0 && is_ident_start(f[0]) && forall|i: int|
        0 <= i < f.len() ==> is_ident_char(#[trigger] f[i])
}

/// Printable, needs no escaping inside a quoted identifier.
pub open spec fn is_plain_char(c: u8) -> bool {
    32 <= c <= 126 && c != 34 && c != 92
}

/// A descriptor of the shape `"..."` whose inside reads back as itself.
pub open spec fn quoted_identifier(f: Seq<u8>) -> bool {
    f.len() >= 2 && f[0] == 34 && f[f.len() - 1] == 34 && forall|i: int|
        1 <= i < f.len() - 1 ==> is_plain_char(#[trigger] f[i])
}

/// The member name that an identifier expression selects, where the source
/// text is a bare or a quoted identifier.
pub open spec fn ident_of(source: Seq<u8>) -> Option<Seq<u8>> {
    if bare_identifier(source) {
        Some(source)
    } else if quoted_identifier(source) {
        Some(source.subrange(1, source.len() - 1))
    } else {
        None
    }
}

/// A descriptor beginning with a hyphen would be read as an operator by the
/// expression grammar, so it is auto-quoted at compile time.
pub open spec fn quote_descriptor(f: Seq<u8>) -> Seq<u8> {
    if f.len() > 0 && f[0] == 45 {
        seq![34u8] + f + seq![34u8]
    } else {
        f
    }
}

/// A bare identifier passes through auto-quoting unchanged and names itself.
pub proof fn lemma_bare_identifier_names_itself(f: Seq<u8>)
    requires
        bare_identifier(f),
    ensures
        quote_descriptor(f) == f,
        ident_of(quote_descriptor(f)) == Some(f),
{
    assert(!(f[0] == 45));
}

/// An auto-quoted hyphen-led descriptor of plain characters names itself too.
pub proof fn lemma_quoted_hyphen_names_itself(f: Seq<u8>)
    requires
        f.len() > 0,
        f[0] == 45,
        forall|i: int| 0 <= i < f.len() ==> is_plain_char(#[trigger] f[i]),
    ensures
        ident_of(quote_descriptor(f)) == Some(f),
{
    let q = quote_descriptor(f);
    assert(q.len() == f.len() + 2);
    assert(q[0] == 34);
    assert(q[q.len() - 1] == 34);
    assert(!is_ident_start(q[0]));
    assert(forall|i: int| 1 <= i < q.len() - 1 ==> #[trigger] q[i] == f[i - 1]);
    assert(quoted_identifier(q));
    assert(q.subrange(1, q.len() - 1) =~= f);
}

/// What evaluating the compiled expression `source` against the document
/// `doc` yields, where the result is a string: a function of the two texts
/// alone.
pub uninterp spec fn query_result(source: Seq<u8>, doc: Seq<u8>) -> Option<Seq<u8>>;

#[verifier::external_type_specification]
#[verifier::external_body]
pub struct ExExpression<'a>(jmespath::Expression<'a>);

/// One key-field descriptor compiled once per dataset into a reusable
/// query. Both fields are private, so every value pairs an expression text
/// with the query compiled from exactly that text: `compile_query` is the
/// only constructor.
pub struct CompiledQuery {
    source: Vec<u8>,
    expr: jmespath::Expression<'static>,
}

impl CompiledQuery {
    /// The exact expression text this query was compiled from (after
    /// auto-quoting).
    pub closed spec fn source(&self) -> Seq<u8> {
        self.source@
    }
}

/// Relies on jmespath::compile: the expression grammar accepts every bare or
/// quoted identifier, and error paths return an error rather than panic.
/// The one constructor of `CompiledQuery`, so its text and its compiled
/// query can never diverge.
#[verifier::external_body]
fn compile_query(source: Vec<u8>) -> (r: Option<CompiledQuery>)
    ensures
        ident_of(source@) is Some ==> r is Some,
        match r {
            Some(q) => q.source() == source@,
            None => true,
        },
{
    let s = match std::str::from_utf8(&source) {
        Ok(s) => s,
        Err(_) => return None,
    };
    let expr = match jmespath::compile(s) {
        Ok(e) => e,
        Err(_) => return None,
    };
    Some(CompiledQuery { source, expr })
}

/// Relies on jmespath::Expression::search and jmespath::Variable::from_json:
/// the result is a function of the expression text and the document text
/// alone (every `CompiledQuery` pairs its text with the query compiled from
/// it), and an identifier expression selects that member of the decoded
/// top-level object, yielding its content exactly when it is a string.
#[verifier::external_body]
fn jmes_search(q: &CompiledQuery, doc: &Vec<u8>) -> (r: Option<Vec<u8>>)
    ensures
        match r {
            Some(v) => query_result(q.source(), doc@) == Some(v@) && match (
                ident_of(q.source()),
                json_decode(doc@),
            ) {
                (Some(name), Some(rec)) => field_string(rec, name) == Some(v@),
                _ => true,
            },
            None => query_result(q.source(), doc@) is None && match (
                ident_of(q.source()),
                json_decode(doc@),
            ) {
                (Some(name), Some(rec)) => field_string(rec, name) is None,
                _ => true,
            },
        },
{
    let s = match std::str::from_utf8(doc) {
        Ok(s) => s,
        Err(_) => return None,
    };
    let var = match jmespath::Variable::from_json(s) {
        Ok(v) => v,
        Err(_) => return None,
    };
    let out = match q.expr.search(var) {
        Ok(rc) => rc,
        Err(_) => return None,
    };
    out.as_string().map(|text| text.as_bytes().to_vec())
}

/// All key fields can be extracted from `rec` by literal lookup.
pub open spec fn all_fields_present(rec: Record, fields: Seq<Vec<u8>>) -> bool {
    forall|i: int| 0 <= i < fields.len() ==> field_string(rec, #[trigger] fields[i]@) is Some
}

/// The extracted field strings in declared order, joined with `|`.
pub open spec fn literal_joined(rec: Record, fields: Seq<Vec<u8>>) -> Seq<u8>
    decreases fields.len(),
{
    if fields.len() == 0 {
        Seq::empty()
    } else if fields.len() == 1 {
        field_string(rec, fields[0]@).unwrap()
    } else {
        literal_joined(rec, fields.drop_last()) + seq![124u8] + field_string(
            rec,
            fields.last()@,
        ).unwrap()
    }
}

/// The canonical join key of `rec` under the literal strategy: every field in
/// declared order, stringified and joined with `|`; none where some field is
/// missing or not a string. The delimiter is not escaped, so a field value
/// containing `|` can collide with a multi-field key; keys are otherwise
/// compared byte-wise with no collation or normalization.
pub open spec fn literal_key(rec: Record, fields: Seq<Vec<u8>>) -> Option<Seq<u8>> {
    if all_fields_present(rec, fields) {
        Some(literal_joined(rec, fields))
    } else {
        None
    }
}

/// Every compiled expression evaluates to a string on `doc`.
pub open spec fn expr_parts_present(sources: Seq<Seq<u8>>, doc: Seq<u8>) -> bool {
    forall|i: int| 0 <= i < sources.len() ==> query_result(#[trigger] sources[i], doc) is Some
}

/// The expression results in declared order, joined with `|`.
pub open spec fn expr_joined(sources: Seq<Seq<u8>>, doc: Seq<u8>) -> Seq<u8>
    decreases sources.len(),
{
    if sources.len() == 0 {
        Seq::empty()
    } else if sources.len() == 1 {
        query_result(sources[0], doc).unwrap()
    } else {
        expr_joined(sources.drop_last(), doc) + seq![124u8] + query_result(
            sources.last(),
            doc,
        ).unwrap()
    }
}

/// The canonical join key of the document under the expression strategy.
pub open spec fn expression_key(sources: Seq<Seq<u8>>, doc: Seq<u8>) -> Option<Seq<u8>> {
    if expr_parts_present(sources, doc) {
        Some(expr_joined(sources, doc))
    } else {
        None
    }
}

/// Where each expression agrees with the literal lookup of its field, the
/// two strategies produce the same join key on the same record.
pub proof fn lemma_strategies_agree(
    rec: Record,
    fields: Seq<Vec<u8>>,
    sources: Seq<Seq<u8>>,
    doc: Seq<u8>,
)
    requires
        sources.len() == fields.len(),
        forall|t: int|
            0 <= t < fields.len() ==> query_result(#[trigger] sources[t], doc) == field_string(
                rec,
                fields[t]@,
            ),
    ensures
        expression_key(sources, doc) == literal_key(rec, fields),
    decreases fields.len(),
{
    assert forall|i: int| 0 <= i < sources.len() implies (#[trigger] query_result(
        sources[i],
        doc,
    )) == field_string(rec, fields[i]@) by {
        assert(query_result(sources[i], doc) == field_string(rec, fields[i]@));
    }
    assert forall|i: int| 0 <= i < fields.len() implies (#[trigger] field_string(
        rec,
        fields[i]@,
    )) == query_result(sources[i], doc) by {
        assert(query_result(sources[i], doc) == field_string(rec, fields[i]@));
    }
    assert(expr_parts_present(sources, doc) == all_fields_present(rec, fields));
    if fields.len() > 1 {
        lemma_strategies_agree(rec, fields.drop_last(), sources.drop_last(), doc);
        if all_fields_present(rec, fields) {
            assert(all_fields_present(rec, fields.drop_last()));
            assert(expr_parts_present(sources, doc));
            assert(expr_joined(sources, doc) == literal_joined(rec, fields));
        }
    }
}

/// Which extraction strategy a dataset uses, chosen once per dataset.
#[derive(Debug, Clone, Copy, PartialEq, Eq, Structural)]
pub enum Strategy {
    Literal,
    Expression,
}

/// Per-dataset key extractor: an ordered list of key-field descriptors and,
/// under the expression strategy, their compiled queries.
pub struct KeyExtractor {
    pub strategy: Strategy,
    pub fields: Vec<Vec<u8>>,
    pub queries: Vec<CompiledQuery>,
}

impl KeyExtractor {
    pub open spec fn wf(&self) -> bool {
        match self.strategy {
            Strategy::Literal => literal_applies(self.fields@) && self.queries@.len() == 0,
            Strategy::Expression => self.queries@.len() == self.fields@.len() && forall|i: int|
                0 <= i < self.queries@.len() ==> self.queries@[i].source() == quote_descriptor(
                    #[trigger] self.fields@[i]@,
                ),
        }
    }

    /// The compiled expression texts, in declared order.
    pub open spec fn sources(&self) -> Seq<Seq<u8>> {
        self.queries@.map_values(|q: CompiledQuery| q.source())
    }
}

/// Auto-quotes a descriptor that begins with a hyphen.
fn quote_exec(f: &Vec<u8>) -> (q: Vec<u8>)
    ensures
        q@ == quote_descriptor(f@),
{
    if f.len() > 0 && f[0] == 45 {
        let mut out: Vec<u8> = Vec::new();
        out.push(34);
        push_all(&mut out, f);
        out.push(34);
        proof {
            assert(out@ =~= seq![34u8] + f@ + seq![34u8]);
        }
        out
    } else {
        vstd::slice::slice_to_vec(f.as_slice())
    }
}

/// True when some byte of `f` is a dot.
fn has_dot(f: &Vec<u8>) -> (r: bool)
    ensures
        r == !is_dot_free(f@),
{
    let mut i: usize = 0;
    while i < f.len()
        invariant
            0 <= i <= f@.len(),
            forall|j: int| 0 <= j < i ==> f@[j] != 46u8,
        decreases f@.len() - i,
    {
        if f[i] == 46 {
            return true;
        }
        i = i + 1;
    }
    false
}

/// Compiles every descriptor, auto-quoted where needed. Fails exactly on
/// descriptors the expression grammar refuses, which excludes every
/// identifier.
fn compile_all(fields: &Vec<Vec<u8>>) -> (r: Result<Vec<CompiledQuery>, ExtractError>)
    ensures
        match r {
            Ok(queries) => queries@.len() == fields@.len() && forall|j: int|
                0 <= j < queries@.len() ==> queries@[j].source() == quote_descriptor(
                    #[trigger] fields@[j]@,
                ),
            Err(e) => e == ExtractError::QueryFailed && exists|t: int|
                0 <= t < fields@.len() && ident_of(
                    quote_descriptor(#[trigger] fields@[t]@),
                ) is None,
        },
{
    let mut queries: Vec<CompiledQuery> = Vec::new();
    let mut i: usize = 0;
    while i < fields.len()
        invariant
            0 <= i <= fields@.len(),
            queries@.len() == i,
            forall|j: int|
                0 <= j < i ==> queries@[j].source() == quote_descriptor(#[trigger] fields@[j]@),
        decreases fields@.len() - i,
    {
        let source = quote_exec(&fields[i]);
        let ghost source_view = source@;
        match compile_query(source) {
            Some(q) => {
                queries.push(q);
            },
            None => {
                proof {
                    assert(ident_of(quote_descriptor(fields@[i as int]@)) is None);
                }
                return Err(ExtractError::QueryFailed);
            },
        }
        i = i + 1;
    }
    Ok(queries)
}

impl KeyExtractor {
    /// Builds the extractor for one dataset: chooses the literal strategy
    /// exactly when no descriptor contains expression syntax, and otherwise
    /// compiles every descriptor once, auto-quoted where needed. Compilation
    /// fails only on a descriptor the expression grammar refuses; every
    /// identifier, bare or auto-quoted, is accepted.
    pub fn new(fields: Vec<Vec<u8>>) -> (r: Result<KeyExtractor, ExtractError>)
        ensures
            match r {
                Ok(kx) => kx.wf() && kx.fields@ == fields@ && (kx.strategy == Strategy::Literal
                    <==> literal_applies(fields@)),
                Err(e) => e == ExtractError::QueryFailed && !literal_applies(fields@) && exists|
                    t: int,
                |
                    0 <= t < fields@.len() && ident_of(
                        quote_descriptor(#[trigger] fields@[t]@),
                    ) is None,
            },
    {
        let mut literal = true;
        let mut i: usize = 0;
        while i < fields.len()
            invariant
                0 <= i <= fields@.len(),
                literal == (forall|j: int| 0 <= j < i ==> is_dot_free(#[trigger] fields@[j]@)),
            decreases fields@.len() - i,
        {
            if has_dot(&fields[i]) {
                literal = false;
                proof {
                    assert(!is_dot_free(fields@[i as int]@));
                }
                i = fields.len();
            } else {
                i = i + 1;
            }
        }
        if literal {
            return Ok(KeyExtractor { strategy: Strategy::Literal, fields, queries: Vec::new() });
        }
        let queries = match compile_all(&fields) {
            Ok(queries) => queries,
            Err(e) => {
                return Err(e);
            },
        };
        Ok(KeyExtractor { strategy: Strategy::Expression, fields, queries })
    }

    /// Builds an extractor that uses the expression strategy for every
    /// descriptor, whether or not any contains expression syntax: both
    /// strategies can then be run against the same dataset.
    pub fn new_expression(fields: Vec<Vec<u8>>) -> (r: Result<KeyExtractor, ExtractError>)
        ensures
            match r {
                Ok(kx) => kx.wf() && kx.fields@ == fields@ && kx.strategy
                    == Strategy::Expression,
                Err(e) => e == ExtractError::QueryFailed && exists|t: int|
                    0 <= t < fields@.len() && ident_of(
                        quote_descriptor(#[trigger] fields@[t]@),
                    ) is None,
            },
    {
        let queries = match compile_all(&fields) {
            Ok(queries) => queries,
            Err(e) => {
                return Err(e);
            },
        };
        Ok(KeyExtractor { strategy: Strategy::Expression, fields, queries })
    }

    /// Extracts the canonical join key of one record. `doc` is the exact
    /// text the record was decoded from. Under the literal strategy the key
    /// is pinned by `literal_key`; under the expression strategy by
    /// `expression_key`; and where every descriptor names itself as an
    /// identifier, the two strategies agree on the same record.
    pub fn extract(&self, rec: &Record, doc: &Vec<u8>) -> (r: Result<Vec<u8>, ExtractError>)
        requires
            self.wf(),
        ensures
            match self.strategy {
                Strategy::Literal => match r {
                    Ok(k) => literal_key(*rec, self.fields@) == Some(k@),
                    Err(e) => literal_key(*rec, self.fields@) is None && e
                        == ExtractError::MissingOrNonString,
                },
                Strategy::Expression => (match r {
                    Ok(k) => expression_key(self.sources(), doc@) == Some(k@),
                    Err(e) => expression_key(self.sources(), doc@) is None && e
                        == ExtractError::QueryFailed,
                }) && ((json_decode(doc@) == Some(*rec) && forall|t: int|
                    0 <= t < self.fields@.len() ==> ident_of(
                        quote_descriptor(#[trigger] self.fields@[t]@),
                    ) == Some(self.fields@[t]@)) ==> (match r {
                    Ok(k) => literal_key(*rec, self.fields@) == Some(k@),
                    Err(_) => literal_key(*rec, self.fields@) is None,
                })),
            },
    {
        match self.strategy {
            Strategy::Literal => {
                let mut out: Vec<u8> = Vec::new();
                let mut i: usize = 0;
                while i < self.fields.len()
                    invariant
                        0 <= i <= self.fields@.len(),
                        self.strategy == Strategy::Literal,
                        forall|j: int|
                            0 <= j < i ==> field_string(*rec, #[trigger] self.fields@[j]@)
                                is Some,
                        out@ == literal_joined(*rec, self.fields@.take(i as int)),
                    decreases self.fields@.len() - i,
                {
                    match rec.get_field_string(&self.fields[i]) {
                        None => {
                            proof {
                                assert(!all_fields_present(*rec, self.fields@));
                            }
                            return Err(ExtractError::MissingOrNonString);
                        },
                        Some(part) => {
                            if i > 0 {
                                out.push(124);
                            }
                            push_all(&mut out, &part);
                            proof {
                                let taken = self.fields@.take(i + 1);
                                assert(taken.drop_last() =~= self.fields@.take(i as int));
                                assert(taken.last() == self.fields@[i as int]);
                                assert(out@ =~= literal_joined(*rec, taken));
                            }
                        },
                    }
                    i = i + 1;
                }
                proof {
                    assert(self.fields@.take(self.fields@.len() as int) =~= self.fields@);
                    assert(all_fields_present(*rec, self.fields@));
                }
                Ok(out)
            },
            Strategy::Expression => {
                let mut out: Vec<u8> = Vec::new();
                let mut i: usize = 0;
                while i < self.queries.len()
                    invariant
                        0 <= i <= self.queries@.len(),
                        self.wf(),
                        self.strategy == Strategy::Expression,
                        forall|j: int|
                            0 <= j < i ==> query_result(
                                #[trigger] self.sources()[j],
                                doc@,
                            ) is Some,
                        json_decode(doc@) == Some(*rec) ==> forall|j: int|
                            0 <= j < i ==> (match ident_of(self.queries@[j].source()) {
                                Some(name) => field_string(*rec, name) == query_result(
                                    #[trigger] self.sources()[j],
                                    doc@,
                                ),
                                None => true,
                            }),
                        out@ == expr_joined(self.sources().take(i as int), doc@),
                    decreases self.queries@.len() - i,
                {
                    match jmes_search(&self.queries[i], doc) {
                        None => {
                            proof {
                                assert(self.sources()[i as int] == self.queries@[
                                i as int].source());
                                assert(!expr_parts_present(self.sources(), doc@));
                                if json_decode(doc@) == Some(*rec) && forall|t: int|
                                    0 <= t < self.fields@.len() ==> ident_of(
                                        quote_descriptor(#[trigger] self.fields@[t]@),
                                    ) == Some(self.fields@[t]@) {
                                    assert(self.queries@[i as int].source() == quote_descriptor(
                                        self.fields@[i as int]@,
                                    ));
                                    assert(ident_of(self.queries@[i as int].source()) == Some(
                                        self.fields@[i as int]@,
                                    ));
                                    assert(field_string(*rec, self.fields@[i as int]@) is None);
                                    assert(!all_fields_present(*rec, self.fields@));
                                }
                            }
                            return Err(ExtractError::QueryFailed);
                        },
                        Some(part) => {
                            if i > 0 {
                                out.push(124);
                            }
                            push_all(&mut out, &part);
                            proof {
                                assert(self.sources()[i as int] == self.queries@[
                                i as int].source());
                                let taken = self.sources().take(i + 1);
                                assert(taken.drop_last() =~= self.sources().take(i as int));
                                assert(taken.last() == self.sources()[i as int]);
                                assert(out@ =~= expr_joined(taken, doc@));
                            }
                        },
                    }
                    i = i + 1;
                }
                proof {
                    assert(self.sources().take(self.sources().len() as int) =~= self.sources());
                    assert(expr_parts_present(self.sources(), doc@));
                    if json_decode(doc@) == Some(*rec) && forall|t: int|
                        0 <= t < self.fields@.len() ==> ident_of(
                            quote_descriptor(#[trigger] self.fields@[t]@),
                        ) == Some(self.fields@[t]@) {
                        assert forall|t: int| 0 <= t < self.fields@.len() implies query_result(
                            #[trigger] self.sources()[t],
                            doc@,
                        ) == field_string(*rec, self.fields@[t]@) by {
                            assert(self.queries@[t].source() == quote_descriptor(
                                self.fields@[t]@,
                            ));
                            assert(ident_of(self.queries@[t].source()) == Some(
                                self.fields@[t]@,
                            ));
                        }
                        lemma_strategies_agree(*rec, self.fields@, self.sources(), doc@);
                    }
                }
                Ok(out)
            },
        }
    }
}

} // verus!
