use vstd::prelude::*;

use crate::query::{Term, TermModel, strings_view};
use crate::schema::{Document, FieldEntry, FieldType, FieldValue, MonitorError, Schema, is_text_field};

verus! {

/// The texts of the tokens that tokenizer `tokenizer` makes of `text`.
pub uninterp spec fn tokens_of(tokenizer: Seq<char>, text: Seq<char>) -> Seq<Seq<char>>;

/// The tokenizers that every index knows.
pub open spec fn builtin_tokenizer(name: Seq<char>) -> bool {
    name == "raw"@ || name == "default"@ || name == "en_stem"@ || name == "whitespace"@
}

/// Relies on tantivy's `TokenizerManager::default`, which registers the
/// tokenizers `raw`, `default`, `en_stem` and `whitespace` and no other, and
/// on `TextAnalyzer::token_stream`, whose tokens depend on the tokenizer and
/// the text alone.
#[verifier::external_body]
fn token_texts(tokenizer: &str, text: &str) -> (r: Option<Vec<String>>)
    ensures
        (r is Some) == builtin_tokenizer(tokenizer@),
        r is Some ==> strings_view(r->Some_0@) == tokens_of(tokenizer@, text@),
{
    let mut analyzer = tantivy::tokenizer::TokenizerManager::default().get(tokenizer)?;
    let mut texts: Vec<String> = Vec::new();
    analyzer.token_stream(text).process(
        &mut |token: &tantivy::tokenizer::Token| texts.push(token.text.clone()),
    );
    Some(texts)
}

/// The tokenizer of a text-like field type: `None` for a field that is not
/// text, `Some(None)` for text that is not indexed.
pub open spec fn text_tokenizer(ft: FieldType) -> Option<Option<String>> {
    match ft {
        FieldType::Str(t) => Some(t),
        FieldType::JsonObject(t) => Some(t),
        _ => None,
    }
}

/// The terms that one field value contributes to a document's analysis.
pub open spec fn value_terms(fields: Seq<FieldEntry>, field: u32, value: FieldValue) -> Result<
    Seq<TermModel>,
    MonitorError,
> {
    if field >= fields.len() {
        Err(MonitorError::SchemaError)
    } else {
        match text_tokenizer(fields[field as int].field_type) {
            None => Ok(Seq::empty()),
            Some(None) => Err(MonitorError::InvalidArgument),
            Some(Some(tokenizer)) => {
                if !builtin_tokenizer(tokenizer@) {
                    Err(MonitorError::InvalidArgument)
                } else {
                    match value {
                        FieldValue::Str(s) => Ok(
                            tokens_of(tokenizer@, s@).map_values(|t: Seq<char>| (field, t)),
                        ),
                        _ => Err(MonitorError::InvalidArgument),
                    }
                }
            },
        }
    }
}

/// The terms of a document, value by value, or the error of the first value
/// that cannot be analysed.
pub open spec fn document_terms(fields: Seq<FieldEntry>, values: Seq<(u32, FieldValue)>) -> Result<
    Seq<TermModel>,
    MonitorError,
>
    decreases values.len(),
{
    if values.len() == 0 {
        Ok(Seq::empty())
    } else {
        match document_terms(fields, values.drop_last()) {
            Err(e) => Err(e),
            Ok(p) => match value_terms(fields, values.last().0, values.last().1) {
                Err(e) => Err(e),
                Ok(ts) => Ok(p + ts),
            },
        }
    }
}

/// The terms of the values analysed before the first one that cannot be:
/// all the document's terms when every value can be analysed.
pub open spec fn analysed_terms(fields: Seq<FieldEntry>, values: Seq<(u32, FieldValue)>) -> Seq<
    TermModel,
>
    decreases values.len(),
{
    if values.len() == 0 {
        Seq::empty()
    } else {
        match document_terms(fields, values.drop_last()) {
            Err(_) => analysed_terms(fields, values.drop_last()),
            Ok(p) => match value_terms(fields, values.last().0, values.last().1) {
                Err(_) => p,
                Ok(ts) => p + ts,
            },
        }
    }
}

/// When every value is analysed, the analysed terms are the document's terms.
pub proof fn lemma_analysed_terms_ok(fields: Seq<FieldEntry>, values: Seq<(u32, FieldValue)>)
    requires
        document_terms(fields, values) is Ok,
    ensures
        analysed_terms(fields, values) == document_terms(fields, values)->Ok_0,
{
}

/// When value `i` is the first that cannot be analysed, the analysed terms
/// are those of the values before it.
pub proof fn lemma_analysed_terms_err(
    fields: Seq<FieldEntry>,
    values: Seq<(u32, FieldValue)>,
    i: int,
)
    requires
        0 <= i < values.len(),
        document_terms(fields, values.subrange(0, i)) is Ok,
        value_terms(fields, values[i].0, values[i].1) is Err,
    ensures
        analysed_terms(fields, values) == document_terms(fields, values.subrange(0, i))->Ok_0,
    decreases values.len(),
{
    let p = values.drop_last();
    if values.len() == i + 1 {
        assert(p =~= values.subrange(0, i));
    } else {
        assert(p.subrange(0, i) =~= values.subrange(0, i));
        assert(p[i] == values[i]);
        lemma_analysed_terms_err(fields, p, i);
        assert(p.subrange(0, i + 1).drop_last() =~= values.subrange(0, i));
        assert(p.subrange(0, i + 1).last() == values[i]);
        lemma_document_terms_err_extends(fields, p, i + 1);
    }
}

/// The values of a sequence of terms.
pub open spec fn terms_view(ts: Seq<Term>) -> Seq<TermModel> {
    ts.map_values(|t: Term| t@)
}

/// Every term of a document's analysis lies on a text field.
pub proof fn lemma_document_terms_on_text_fields(
    fields: Seq<FieldEntry>,
    values: Seq<(u32, FieldValue)>,
)
    requires
        document_terms(fields, values) is Ok,
    ensures
        forall|i: int|
            0 <= i < document_terms(fields, values)->Ok_0.len() ==> is_text_field(
                fields,
                #[trigger] document_terms(fields, values)->Ok_0[i].0,
            ),
    decreases values.len(),
{
    if values.len() > 0 {
        lemma_document_terms_on_text_fields(fields, values.drop_last());
        let p = document_terms(fields, values.drop_last())->Ok_0;
        let ts = value_terms(fields, values.last().0, values.last().1)->Ok_0;
        assert forall|i: int| 0 <= i < ts.len() implies is_text_field(fields, #[trigger] ts[i].0) by {
        }
        assert forall|i: int| 0 <= i < (p + ts).len() implies is_text_field(
            fields,
            #[trigger] (p + ts)[i].0,
        ) by {
            if i >= p.len() {
                assert((p + ts)[i] == ts[i - p.len()]);
            }
        }
    }
}

pub(crate) fn value_to_terms(schema: &Schema, field: u32, value: &FieldValue) -> (r: Result<
    Vec<Term>,
    MonitorError,
>)
    ensures
        (r is Ok) == (value_terms(schema.fields@, field, *value) is Ok),
        r is Ok ==> terms_view(r->Ok_0@) == value_terms(schema.fields@, field, *value)->Ok_0,
        r is Err ==> r->Err_0 == value_terms(schema.fields@, field, *value)->Err_0,
{
    if field as usize >= schema.fields.len() {
        return Err(MonitorError::SchemaError);
    }
    let tokenizer = match &schema.fields[field as usize].field_type {
        FieldType::Str(t) => t,
        FieldType::JsonObject(t) => t,
        _ => {
            let r: Vec<Term> = Vec::new();
            assert(terms_view(r@) =~= Seq::<TermModel>::empty());
            return Ok(r);
        },
    };
    let tokenizer = match tokenizer {
        Some(t) => t,
        None => {
            return Err(MonitorError::InvalidArgument);
        },
    };
    let texts = match value {
        FieldValue::Str(s) => token_texts(tokenizer.as_str(), s.as_str()),
        _ => {
            return Err(MonitorError::InvalidArgument);
        },
    };
    let texts = match texts {
        Some(t) => t,
        None => {
            return Err(MonitorError::InvalidArgument);
        },
    };
    let ghost s = value->Str_0;
    let mut terms: Vec<Term> = Vec::new();
    let mut i: usize = 0;
    while i < texts.len()
        invariant
            i <= texts@.len(),
            strings_view(texts@) == tokens_of(tokenizer@, s@),
            terms_view(terms@) == tokens_of(tokenizer@, s@).subrange(0, i as int).map_values(
                |t: Seq<char>| (field, t),
            ),
        decreases texts@.len() - i,
    {
        let term = Term::new(field, texts[i].clone());
        let ghost prev = terms@;
        terms.push(term);
        proof {
            assert(strings_view(texts@)[i as int] == texts@[i as int]@);
            assert(terms_view(terms@) =~= terms_view(prev).push(term@));
            assert(tokens_of(tokenizer@, s@).subrange(0, i + 1) =~= tokens_of(tokenizer@, s@).subrange(0, i as int).push(tokens_of(tokenizer@, s@)[i as int]));
            assert(terms_view(terms@) =~= tokens_of(tokenizer@, s@).subrange(0, i + 1).map_values(
                |t: Seq<char>| (field, t),
            ));
        }
        i = i + 1;
    }
    assert(tokens_of(tokenizer@, s@).subrange(0, texts@.len() as int) =~= tokens_of(
        tokenizer@,
        s@,
    ));
    Ok(terms)
}

/// The terms of a document under a schema: each text value is tokenized with
/// its field's tokenizer.
pub fn analyze_document(document: &Document, schema: &Schema) -> (r: Result<
    Vec<Term>,
    MonitorError,
>)
    ensures
        (r is Ok) == (document_terms(schema.fields@, document.values@) is Ok),
        r is Ok ==> terms_view(r->Ok_0@) == document_terms(schema.fields@, document.values@)->Ok_0,
        r is Err ==> r->Err_0 == document_terms(schema.fields@, document.values@)->Err_0,
{
    let mut terms: Vec<Term> = Vec::new();
    let mut i: usize = 0;
    while i < document.values.len()
        invariant
            i <= document.values@.len(),
            document_terms(schema.fields@, document.values@.subrange(0, i as int)) is Ok,
            terms_view(terms@) == document_terms(
                schema.fields@,
                document.values@.subrange(0, i as int),
            )->Ok_0,
        decreases document.values@.len() - i,
    {
        let ghost prefix = document.values@.subrange(0, i + 1);
        assert(prefix.drop_last() =~= document.values@.subrange(0, i as int));
        let field = document.values[i].0;
        let value_terms_r = value_to_terms(schema, field, &document.values[i].1);
        match value_terms_r {
            Ok(more) => {
                let ghost before = terms@;
                let mut j: usize = 0;
                while j < more.len()
                    invariant
                        j <= more@.len(),
                        terms_view(terms@) == terms_view(before) + terms_view(
                            more@.subrange(0, j as int),
                        ),
                    decreases more@.len() - j,
                {
                    let ghost prev = terms@;
                    let t = more[j].duplicate();
                    terms.push(t);
                    assert(terms_view(terms@) =~= terms_view(prev).push(t@));
                    assert(terms_view(more@.subrange(0, j + 1)) =~= terms_view(more@.subrange(0, j as int)).push(more@[j as int]@));
                    assert(terms_view(terms@) =~= terms_view(before) + terms_view(
                        more@.subrange(0, j + 1),
                    ));
                    j = j + 1;
                }
                assert(more@.subrange(0, more@.len() as int) =~= more@);
            },
            Err(e) => {
                proof {
                    lemma_document_terms_err_extends(schema.fields@, document.values@, i as int + 1);
                }
                return Err(e);
            },
        }
        i = i + 1;
    }
    assert(document.values@.subrange(0, document.values@.len() as int) =~= document.values@);
    Ok(terms)
}

/// An error on a prefix of the values is the error of the whole document.
pub(crate) proof fn lemma_document_terms_err_extends(
    fields: Seq<FieldEntry>,
    values: Seq<(u32, FieldValue)>,
    n: int,
)
    requires
        0 <= n <= values.len(),
        document_terms(fields, values.subrange(0, n)) is Err,
    ensures
        document_terms(fields, values) == document_terms(fields, values.subrange(0, n)),
    decreases values.len() - n,
{
    if n < values.len() {
        assert(values.subrange(0, n + 1).drop_last() =~= values.subrange(0, n));
        lemma_document_terms_err_extends(fields, values, n + 1);
    } else {
        assert(values.subrange(0, n) =~= values);
    }
}

} // verus!
