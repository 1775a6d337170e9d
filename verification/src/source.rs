//! The plain source of a record, and that reading it gives the record back.

use crate::domain::{FieldSpec, StructuralModel};
use crate::scan::{
    declared_field, declared_fields, declares, extract, keyword, record_name, Failure,
};
use crate::well_formed::{
    is_closing, is_field_line, is_heading, lemma_well_formed_record, well_formed,
};
use crate::text::{
    is_space, is_word, lemma_lines_of_unlines, lemma_tokens_of_unwords, occurs_at, strip_suffix,
    tokens, trim_end_matches, trim_matches, trim_start_matches, unlines, unwords,
};
use vstd::prelude::*;

verus! {

/// The line that declares the record `name`: the word `record`, then the
/// name with an opening parenthesis.
pub open spec fn heading_row(name: Seq<char>) -> Seq<char> {
    unwords(seq![keyword(), name + seq!['(']])
}

/// The line that declares `field`: its type, then its identifier with a
/// comma.
pub open spec fn field_row(field: FieldSpec) -> Seq<char> {
    unwords(seq![field.field_type, field.identifier + seq![',']])
}

/// The line that closes a record.
pub open spec fn closing_row() -> Seq<char> {
    seq![')']
}

/// The lines that declare `model`: the heading, one line for each field, and
/// the line that closes.
pub open spec fn rows_of(model: StructuralModel) -> Seq<Seq<char>> {
    seq![heading_row(model.name)] + Seq::new(
        model.fields.len(),
        |k: int| field_row(model.fields[k]),
    ) + seq![closing_row()]
}

/// The text that declares `model`.
pub open spec fn source_of(model: StructuralModel) -> Seq<char> {
    unlines(rows_of(model))
}

/// Whether `name` can be read back: it is a word without a closing
/// parenthesis, and no opening parenthesis stands at its start or at its
/// end.
pub open spec fn is_plain_name(name: Seq<char>) -> bool {
    &&& is_word(name)
    &&& name.first() != '('
    &&& name.last() != '('
    &&& !name.contains(')')
}

/// Whether `field` can be read back: it is sound, holds no closing
/// parenthesis, and its line does not hold the word `record`.
pub open spec fn is_plain_field(field: FieldSpec) -> bool {
    &&& field.is_sound()
    &&& !field.field_type.contains(')')
    &&& !field.identifier.contains(')')
    &&& !declares(field_row(field))
}

/// Whether the name and every field of `model` can be read back.
pub open spec fn is_plain_model(model: StructuralModel) -> bool {
    &&& is_plain_name(model.name)
    &&& forall|k: int| 0 <= k < model.fields.len() ==> is_plain_field(#[trigger] model.fields[k])
}

/// The word `record` is a word of six letters.
proof fn lemma_keyword_is_word()
    ensures
        keyword().len() == 6,
        is_word(keyword()),
        !keyword().contains('\n'),
        !keyword().contains(')'),
{
    reveal_strlit("record");
}

/// A text of two words holds the characters of the two words and blanks,
/// and has the two words as its tokens.
proof fn lemma_two_words(first: Seq<char>, second: Seq<char>)
    requires
        is_word(first),
        is_word(second),
    ensures
        tokens(unwords(seq![first, second])) == seq![first, second],
        unwords(seq![first, second]) == first + seq![' '] + second + seq![' '],
{
    let words = seq![first, second];
    lemma_tokens_of_unwords(words);
    let rest = words.drop_first();
    assert(rest =~= seq![second]);
    assert(rest.drop_first() =~= Seq::<Seq<char>>::empty());
    assert(unwords(rest.drop_first()) =~= Seq::<char>::empty());
    assert(unwords(rest) =~= second + seq![' ']);
    assert(unwords(words) =~= first + seq![' '] + second + seq![' ']);
}

/// A text of two words holds a character only where one of the two words
/// holds it, unless it is the blank.
proof fn lemma_two_words_hold(first: Seq<char>, second: Seq<char>, c: char)
    requires
        is_word(first),
        is_word(second),
        c != ' ',
    ensures
        unwords(seq![first, second]).contains(c) <==> first.contains(c) || second.contains(c),
{
    lemma_two_words(first, second);
    let text = unwords(seq![first, second]);
    if text.contains(c) {
        let i = choose|i: int| 0 <= i < text.len() && text[i] == c;
        if i < first.len() {
            assert(first[i] == c);
        } else {
            assert(second[i - first.len() - 1] == c);
        }
    }
    if first.contains(c) {
        let i = choose|i: int| 0 <= i < first.len() && first[i] == c;
        assert(text[i] == c);
    }
    if second.contains(c) {
        let i = choose|i: int| 0 <= i < second.len() && second[i] == c;
        assert(text[first.len() + 1 + i] == c);
    }
}

/// The heading of a plain name shows that name, and opens the fields.
proof fn lemma_heading_row_is_heading(name: Seq<char>)
    requires
        is_plain_name(name),
    ensures
        is_heading(heading_row(name)),
        record_name(heading_row(name)) == Some(name),
        !heading_row(name).contains('\n'),
{
    lemma_keyword_is_word();
    let second = name + seq!['('];
    assert(is_word(second)) by {
        assert forall|i: int| 0 <= i < second.len() implies !is_space(second[i]) by {
            if i < name.len() {
                assert(second[i] == name[i]);
            }
        }
    }
    lemma_two_words(keyword(), second);
    let words = tokens(heading_row(name));
    words.index_of_first_ensures(keyword());
    assert(words[0] == keyword());
    assert(words.index_of_first(keyword()) == Some(0int));
    assert(trim_matches(second, '(') == name) by {
        assert(second[0] == name[0]);
        assert(trim_start_matches(second, '(') == second);
        assert(second.drop_last() =~= name);
        assert(trim_end_matches(second, '(') == trim_end_matches(name, '('));
        assert(trim_end_matches(name, '(') == name);
    }
    assert(second.contains('(')) by {
        assert(second[name.len() as int] == '(');
    }
    assert(!second.contains(')')) by {
        if second.contains(')') {
            let i = choose|i: int| 0 <= i < second.len() && second[i] == ')';
            assert(name[i] == ')');
        }
    }
    assert(!second.contains('\n')) by {
        if second.contains('\n') {
            let i = choose|i: int| 0 <= i < second.len() && second[i] == '\n';
            assert(is_space(second[i]));
        }
    }
    lemma_two_words_hold(keyword(), second, '(');
    lemma_two_words_hold(keyword(), second, ')');
    lemma_two_words_hold(keyword(), second, '\n');
}

/// The line of a plain field declares that field, and nothing else.
proof fn lemma_field_row_is_field_line(field: FieldSpec)
    requires
        is_plain_field(field),
    ensures
        is_field_line(field_row(field)),
        declared_field(field_row(field)) == field,
        !field_row(field).contains('\n'),
{
    let first = field.field_type;
    let second = field.identifier + seq![','];
    assert(is_word(second)) by {
        assert forall|i: int| 0 <= i < second.len() implies !is_space(second[i]) by {
            if i < field.identifier.len() {
                assert(second[i] == field.identifier[i]);
            }
        }
    }
    lemma_two_words(first, second);
    assert(second.drop_last() =~= field.identifier);
    assert(strip_suffix(second, ',') == field.identifier);
    assert(!second.contains(')')) by {
        if second.contains(')') {
            let i = choose|i: int| 0 <= i < second.len() && second[i] == ')';
            assert(field.identifier[i] == ')');
        }
    }
    assert(!first.contains('\n') && !second.contains('\n')) by {
        if first.contains('\n') {
            let i = choose|i: int| 0 <= i < first.len() && first[i] == '\n';
            assert(is_space(first[i]));
        }
        if second.contains('\n') {
            let i = choose|i: int| 0 <= i < second.len() && second[i] == '\n';
            assert(is_space(second[i]));
        }
    }
    lemma_two_words_hold(first, second, ')');
    lemma_two_words_hold(first, second, '\n');
}

/// A record that is written out plainly and read again is the same record:
/// the same name, and the same fields in the same order.
pub proof fn lemma_source_reads_back(model: StructuralModel)
    requires
        is_plain_model(model),
    ensures
        extract(source_of(model)) == Ok::<StructuralModel, Failure>(model),
{
    let rows = rows_of(model);
    let count = model.fields.len() as int;
    lemma_keyword_is_word();
    lemma_heading_row_is_heading(model.name);
    assert(rows[0] == heading_row(model.name));
    assert(rows[count + 1] == closing_row());
    assert forall|j: int| 0 < j <= count implies {
        &&& is_field_line(#[trigger] rows[j])
        &&& !rows[j].contains('\n')
        &&& declared_field(rows[j]) == model.fields[j - 1]
    } by {
        assert(rows[j] == field_row(model.fields[j - 1]));
        lemma_field_row_is_field_line(model.fields[j - 1]);
    }
    assert(is_closing(closing_row())) by {
        assert(closing_row()[0] == ')');
        assert forall|at: int| !occurs_at(closing_row(), keyword(), at) by {}
    }
    assert forall|k: int| 0 <= k < rows.len() implies !(#[trigger] rows[k]).contains('\n') by {
        if k == 0 {
        } else if k <= count {
            assert(is_field_line(rows[k]));
        } else {
            assert(rows[k] == closing_row());
        }
    }
    lemma_lines_of_unlines(rows);
    assert(well_formed(rows, 0, count));
    lemma_well_formed_record(rows, 0, count);
    assert(declared_fields(rows, 1, count) =~= model.fields);
}

} // verus!
