//! What holds of every declaration of parameters that is written out and read again.

use vstd::prelude::*;
use crate::annotation::{label_in, widget_in};
use crate::declaration::{
    declared, field_in, fields_in, first_close, first_open, opens_params, FaultView,
};
use crate::layout_laws::law_declared_parameters_are_laid_out;
use crate::params::{
    law_a_type_is_read_back, packed_end, rounded_up, type_named, unspaced, FieldView, LiteralView,
    ParamType,
};
use crate::text::{
    after_start, divided, lines_of, starts, trimmed, trimmed_start, white, without_end,
    without_start,
};
use crate::text_laws::{
    bare, blank, free_of, law_a_start_is_taken_off, law_trimming_takes_off_what_is_round_a_text,
    law_what_is_put_together_is_divided_again, lemma_divided_at, lemma_starts_otherwise,
    lemma_trimmed_bare, lemma_trimmed_start,
};

verus! {

/// A type has as many components as its name says: a vector the digit after `vec`, any other
/// one. It starts on a multiple of the least power of two that it fits in.
pub proof fn law_a_type_has_the_size_its_name_says(ty: ParamType)
    ensures
        1 <= ty.count() <= 4,
        starts(ty.spelling(), "vec"@) ==> ty.count() == ty.spelling()[3] as int - '0' as int,
        !starts(ty.spelling(), "vec"@) ==> ty.count() == 1,
        ty.grain() == 4 || ty.grain() == 8 || ty.grain() == 16,
        4 * ty.count() <= ty.grain() < 8 * ty.count(),
        ty.spelling()[0] == 'f' <==> ty == ParamType::F32,
        ty.spelling()[0] == 'i' <==> ty == ParamType::I32,
        ty.spelling()[0] == 'u' <==> ty == ParamType::U32,
        ty.count() == 2 <==> ty == ParamType::Vec2,
        ty.count() == 3 <==> ty == ParamType::Vec3,
        ty.count() == 4 <==> ty == ParamType::Vec4,
{
    reveal_strlit("vec");
    reveal_strlit("f32");
    reveal_strlit("i32");
    reveal_strlit("u32");
    reveal_strlit("vec2<f32>");
    reveal_strlit("vec3<f32>");
    reveal_strlit("vec4<f32>");
    let text = ty.spelling();
    match ty {
        ParamType::F32 | ParamType::I32 | ParamType::U32 => {
            assert(text[0] != "vec"@[0]);
            lemma_starts_otherwise(text, "vec"@, 0);
        },
        _ => {
            assert(text.subrange(0, 3) =~= "vec"@);
        },
    }
}

/// The next multiple of a grain is the least one that is not below.
pub proof fn law_rounding_up_gives_the_next_multiple(bytes: int, ty: ParamType)
    requires
        0 <= bytes,
    ensures
        rounded_up(bytes, ty.grain()) % ty.grain() == 0,
        bytes <= rounded_up(bytes, ty.grain()) < bytes + ty.grain(),
{
    let grain = ty.grain();
    if grain == 4 {
        assert(rounded_up(bytes, 4) == (bytes + 3) / 4 * 4);
    } else if grain == 8 {
        assert(rounded_up(bytes, 8) == (bytes + 7) / 8 * 8);
    } else {
        assert(rounded_up(bytes, 16) == (bytes + 15) / 16 * 16);
    }
}

/// What a line that declares a parameter is written as.
pub open spec fn line_text(name: Seq<char>, ty: ParamType, annotation: Seq<char>) -> Seq<char> {
    name + seq![':', ' '] + ty.spelling() + seq![',', ' '] + "//"@ + " @ui "@ + annotation
}

proof fn lemma_spelling(ty: ParamType)
    ensures
        ty.spelling().len() > 0,
        bare(ty.spelling()),
        free_of(ty.spelling(), '/'),
        free_of(ty.spelling(), ':'),
        free_of(ty.spelling(), ','),
{
    reveal_strlit("f32");
    reveal_strlit("i32");
    reveal_strlit("u32");
    reveal_strlit("vec2<f32>");
    reveal_strlit("vec3<f32>");
    reveal_strlit("vec4<f32>");
}

proof fn lemma_line_divided(name: Seq<char>, ty: ParamType, annotation: Seq<char>)
    requires
        name.len() > 0,
        bare(name),
        free_of(name, ':'),
        free_of(name, '/'),
        annotation.len() > 0,
        bare(annotation),
    ensures
        ({
            let declaration = name + seq![':', ' '] + ty.spelling() + seq![',', ' '];
            let comment = " @ui "@ + annotation;
            &&& divided(line_text(name, ty, annotation), "//"@) == Some((declaration, comment))
            &&& after_start(trimmed(comment), "@ui"@) == Some(seq![' '] + annotation)
            &&& trimmed(seq![' '] + annotation) == annotation
            &&& divided(trimmed(without_end(trimmed(declaration), ',')), ":"@) == Some(
                (name, seq![' '] + ty.spelling()),
            )
            &&& trimmed(name) == name
            &&& trimmed(seq![' '] + ty.spelling()) == ty.spelling()
        }),
{
    reveal_strlit("//");
    reveal_strlit(" @ui ");
    reveal_strlit("@ui");
    reveal_strlit(":");
    assert(":"@ =~= seq![':']);
    lemma_spelling(ty);
    let none = Seq::<char>::empty();
    let space = seq![' '];
    assert(blank(space));
    let spelled = ty.spelling();
    let kept = name + seq![':', ' '] + spelled;
    let ended = kept + seq![','];
    let declaration = kept + seq![',', ' '];
    let comment = " @ui "@ + annotation;
    assert forall|i: int| 0 <= i < declaration.len() implies #[trigger] declaration[i] != '/' by {
        if i < name.len() {
            assert(declaration[i] == name[i]);
        } else if name.len() + 2 <= i < name.len() + 2 + spelled.len() {
            assert(declaration[i] == spelled[i - name.len() - 2]);
        }
    }
    lemma_divided_at(declaration, "//"@, comment);
    assert(line_text(name, ty, annotation) =~= declaration + "//"@ + comment);
    let marked = "@ui"@ + (space + annotation);
    assert(comment =~= space + marked + none);
    assert(marked[0] == '@');
    assert(marked[marked.len() - 1] == annotation[annotation.len() - 1]);
    law_trimming_takes_off_what_is_round_a_text(space, marked, none);
    law_a_start_is_taken_off("@ui"@, space + annotation);
    law_trimming_takes_off_what_is_round_a_text(space, annotation, none);
    assert(space + annotation + none =~= space + annotation);
    assert(declaration =~= none + ended + space);
    assert(ended[0] == name[0]);
    assert(ended[ended.len() - 1] == ',');
    law_trimming_takes_off_what_is_round_a_text(none, ended, space);
    assert(ended.drop_last() =~= kept);
    assert(kept[kept.len() - 1] == spelled[spelled.len() - 1]);
    assert(kept[0] == name[0]);
    assert(without_end(kept, ',') == kept);
    assert(without_end(ended, ',') == kept);
    lemma_trimmed_bare(kept);
    assert(kept =~= name + seq![':'] + (space + spelled));
    law_what_is_put_together_is_divided_again(name, ':', space + spelled);
    lemma_trimmed_bare(name);
    law_trimming_takes_off_what_is_round_a_text(space, spelled, none);
    assert(space + spelled + none =~= space + spelled);
}

/// A line `name: type, // @ui annotation` declares a parameter of that name and type in the
/// section it stands in, with the widget and the default of its annotation, labelled as the
/// annotation says or else by its name, and placed on the first multiple of its type's grain
/// after the parameter before it. It declares none where the annotation gives it no widget.
pub proof fn law_a_line_declares_what_it_says(
    name: Seq<char>,
    ty: ParamType,
    annotation: Seq<char>,
    group: Seq<char>,
    before: Seq<FieldView<LiteralView>>,
)
    requires
        name.len() > 0,
        bare(name),
        free_of(name, ':'),
        free_of(name, '/'),
        annotation.len() > 0,
        bare(annotation),
        forall|i: int| 0 <= i < before.len() ==> (#[trigger] before[i]).name != name,
        packed_end(before) >= 0,
    ensures
        ({
            let (label, rest) = label_in(annotation);
            match field_in(line_text(name, ty, annotation), group, before) {
                Ok(field) => {
                    &&& field.name == name
                    &&& field.ty == ty
                    &&& field.group == group
                    &&& label is Some ==> field.label == label->0
                    &&& label is None ==> field.label == name
                    &&& widget_in(ty, rest) is Ok
                    &&& field.widget == (widget_in(ty, rest)->Ok_0).0
                    &&& field.default == (widget_in(ty, rest)->Ok_0).1
                    &&& field.offset % ty.grain() == 0
                    &&& before.len() == 0 ==> field.offset == 0
                    &&& before.len() > 0 ==> before.last().offset + 4 * before.last().ty.count()
                        <= field.offset < before.last().offset + 4 * before.last().ty.count()
                        + ty.grain()
                },
                Err(reason) => widget_in(ty, rest) is Err && widget_in(ty, rest)->Err_0 == reason,
            }
        }),
{
    lemma_line_divided(name, ty, annotation);
    law_a_type_is_read_back(ty);
    law_rounding_up_gives_the_next_multiple(packed_end(before), ty);
}

/// A parameter is not declared a second time under the same name.
pub proof fn law_a_name_is_declared_once(
    name: Seq<char>,
    ty: ParamType,
    annotation: Seq<char>,
    group: Seq<char>,
    before: Seq<FieldView<LiteralView>>,
    i: int,
)
    requires
        name.len() > 0,
        bare(name),
        free_of(name, ':'),
        free_of(name, '/'),
        annotation.len() > 0,
        bare(annotation),
        0 <= i < before.len(),
        before[i].name == name,
    ensures
        field_in(line_text(name, ty, annotation), group, before) is Err,
{
    lemma_line_divided(name, ty, annotation);
    law_a_type_is_read_back(ty);
}

/// A line `// @group name` declares nothing and names the section of the parameters after
/// it; a blank line or any other comment declares nothing and leaves the section; a line that
/// declares a parameter adds it after those before it.
pub proof fn law_lines_are_read_one_by_one(
    lines: Seq<Seq<char>>,
    index: int,
    end: int,
    group: Seq<char>,
    before: Seq<FieldView<LiteralView>>,
    pad: Seq<char>,
    words: Seq<char>,
)
    requires
        0 <= index < end <= lines.len(),
        blank(pad),
        words.len() > 0,
        bare(words),
    ensures
        ({
            let all = fields_in(lines, index, end, group, before);
            let line = lines[index];
            &&& line == pad + "// @group "@ + words ==> all == fields_in(
                lines,
                index + 1,
                end,
                words,
                before,
            )
            &&& line == pad ==> all == fields_in(lines, index + 1, end, group, before)
            &&& line == pad + "//"@ + words ==> all == fields_in(
                lines,
                index + 1,
                end,
                group,
                before,
            )
            &&& line == pad + words && words[0] != '/' ==> match field_in(words, group, before) {
                Ok(field) => all == fields_in(lines, index + 1, end, group, before.push(field)),
                Err(reason) => all is Err && all->Err_0 == (index + 1, reason),
            }
        }),
{
    reveal_strlit("// @group ");
    reveal_strlit("//");
    let none = Seq::<char>::empty();
    let line = lines[index];
    if line == pad + "// @group "@ + words {
        let text = "// @group "@ + words;
        assert(line =~= pad + text + none);
        assert(text[0] == '/' && text[text.len() - 1] == words[words.len() - 1]);
        law_trimming_takes_off_what_is_round_a_text(pad, text, none);
        law_a_start_is_taken_off("// @group "@, words);
        lemma_trimmed_bare(words);
    }
    if line == pad {
        assert(line =~= pad + none + none);
        law_trimming_takes_off_what_is_round_a_text(pad, none, none);
        lemma_starts_otherwise(none, "// @group "@, 0);
    }
    if line == pad + "//"@ + words {
        let text = "//"@ + words;
        assert(line =~= pad + text + none);
        assert(text[0] == '/' && text[text.len() - 1] == words[words.len() - 1]);
        law_trimming_takes_off_what_is_round_a_text(pad, text, none);
        law_a_start_is_taken_off("//"@, words);
        assert(text[2] == words[0]);
        lemma_starts_otherwise(text, "// @group "@, 2);
    }
    if line == pad + words && words[0] != '/' {
        assert(line =~= pad + words + none);
        law_trimming_takes_off_what_is_round_a_text(pad, words, none);
        lemma_starts_otherwise(words, "// @group "@, 0);
        lemma_starts_otherwise(words, "//"@, 0);
    }
}

/// The struct opens on the first line that names it and closes on the first closing line
/// from there on.
pub proof fn law_the_first_such_line_counts(lines: Seq<Seq<char>>, from: int)
    requires
        0 <= from <= lines.len(),
    ensures
        match first_open(lines, from) {
            Some(at) => from <= at < lines.len() && opens_params(lines[at]) && forall|i: int|
                from <= i < at ==> !opens_params(#[trigger] lines[i]),
            None => forall|i: int| from <= i < lines.len() ==> !opens_params(#[trigger] lines[i]),
        },
        match first_close(lines, from) {
            Some(at) => from <= at < lines.len() && trimmed(lines[at]) == "}"@ && forall|i: int|
                from <= i < at ==> trimmed(#[trigger] lines[i]) != "}"@,
            None => forall|i: int|
                from <= i < lines.len() ==> trimmed(#[trigger] lines[i]) != "}"@,
        },
    decreases lines.len() - from,
{
    if from < lines.len() {
        law_the_first_such_line_counts(lines, from + 1);
    }
}

/// A line opens the struct of the parameters where its name stands alone after `struct`, and
/// not where the name goes on.
pub proof fn law_a_longer_name_is_another_struct(pad: Seq<char>, rest: Seq<char>)
    requires
        blank(pad),
    ensures
        rest.len() == 0 || rest[0] == ' ' || rest[0] == '{' ==> opens_params(
            pad + "struct "@ + "Params"@ + rest,
        ),
        rest.len() > 0 && (rest[0] == '_' || 'a' <= rest[0] <= 'z' || 'A' <= rest[0] <= 'Z'
            || '0' <= rest[0] <= '9') ==> !opens_params(pad + "struct "@ + "Params"@ + rest),
{
    reveal_strlit("struct ");
    reveal_strlit("Params");
    let named = "Params"@ + rest;
    let text = "struct "@ + named;
    let line = pad + "struct "@ + "Params"@ + rest;
    assert(line =~= pad + text);
    assert(text[0] == 's');
    lemma_trimmed_start(pad, text);
    law_a_start_is_taken_off("struct "@, named);
    lemma_starts_otherwise(named, "struct "@, 0);
    assert(text.skip("struct "@.len() as int) =~= named);
    assert(without_start(text, "struct "@) == named);
    assert(named[0] == 'P');
    assert(trimmed_start(named) == named);
    law_a_start_is_taken_off("Params"@, rest);
    if rest.len() > 0 && (rest[0] == ' ' || rest[0] == '{') {
        assert(white(' '));
    }
}

/// A source that names no struct of parameters declares none; one that opens it and never
/// closes it is refused on the line that opens it, counting from one.
pub proof fn law_a_source_without_the_struct_declares_nothing(source: Seq<char>, at: int)
    ensures
        ({
            let lines = lines_of(source);
            &&& (forall|i: int| 0 <= i < lines.len() ==> !opens_params(#[trigger] lines[i]))
                ==> declared(source) == Ok::<Seq<FieldView<LiteralView>>, FaultView>(Seq::empty())
            &&& 0 <= at < lines.len() && opens_params(lines[at]) && (forall|i: int|
                0 <= i < at ==> !opens_params(#[trigger] lines[i])) && (forall|i: int|
                at <= i < lines.len() ==> trimmed(#[trigger] lines[i]) != "}"@) ==> (declared(
                source,
            ) matches Err(fault) && fault.0 == at + 1)
        }),
{
    let lines = lines_of(source);
    law_the_first_such_line_counts(lines, 0);
    if let Some(open) = first_open(lines, 0) {
        law_the_first_such_line_counts(lines, open);
        assert(opens_params(lines[open]));
        if 0 <= at < lines.len() && opens_params(lines[at]) && (forall|i: int|
            0 <= i < at ==> !opens_params(#[trigger] lines[i])) {
            if open < at {
                assert(!opens_params(lines[open]));
            }
            assert(open == at);
        }
        if let Some(close) = first_close(lines, open) {
            assert(trimmed(lines[close]) == "}"@);
        }
    }
}

proof fn lemma_unspaced(before: Seq<char>, word: Seq<char>, after: Seq<char>)
    requires
        blank(before),
        blank(after),
        forall|i: int| 0 <= i < word.len() ==> !white(#[trigger] word[i]),
    ensures
        unspaced(before + word + after) == word,
    decreases before.len() + word.len() + after.len(),
{
    let all = before + word + after;
    if after.len() > 0 {
        let rest = after.drop_last();
        assert(all.last() == after[after.len() - 1]);
        assert(all.drop_last() =~= before + word + rest);
        assert forall|i: int| 0 <= i < rest.len() implies white(#[trigger] rest[i]) by {
            assert(rest[i] == after[i]);
        }
        lemma_unspaced(before, word, rest);
    } else if word.len() > 0 {
        let rest = word.drop_last();
        assert(all.last() == word[word.len() - 1]);
        assert(all.drop_last() =~= before + rest + after);
        assert forall|i: int| 0 <= i < rest.len() implies !white(#[trigger] rest[i]) by {
            assert(rest[i] == word[i]);
        }
        lemma_unspaced(before, rest, after);
        assert(rest.push(word.last()) =~= word);
    } else if before.len() > 0 {
        let rest = before.drop_last();
        assert(all.last() == before[before.len() - 1]);
        assert(all.drop_last() =~= rest + word + after);
        assert forall|i: int| 0 <= i < rest.len() implies white(#[trigger] rest[i]) by {
            assert(rest[i] == before[i]);
        }
        lemma_unspaced(rest, word, after);
    } else {
        assert(all =~= word);
    }
}

/// A vector is read with white space round the type of its components or without.
pub proof fn law_a_vector_is_read_through_white_space(before: Seq<char>, after: Seq<char>)
    requires
        blank(before),
        blank(after),
    ensures
        type_named("vec2<"@ + before + "f32"@ + after + seq!['>']) == Some(ParamType::Vec2),
        type_named("vec3<"@ + before + "f32"@ + after + seq!['>']) == Some(ParamType::Vec3),
        type_named("vec4<"@ + before + "f32"@ + after + seq!['>']) == Some(ParamType::Vec4),
{
    reveal_strlit("f32");
    reveal_strlit("i32");
    reveal_strlit("u32");
    reveal_strlit("vec2<");
    reveal_strlit("vec3<");
    reveal_strlit("vec4<");
    let inside = before + "f32"@ + after;
    let rest = inside + seq!['>'];
    lemma_unspaced(before, "f32"@, after);
    assert(rest.drop_last() =~= inside);
    let two = "vec2<"@ + before + "f32"@ + after + seq!['>'];
    let three = "vec3<"@ + before + "f32"@ + after + seq!['>'];
    let four = "vec4<"@ + before + "f32"@ + after + seq!['>'];
    assert(two =~= "vec2<"@ + rest);
    assert(three =~= "vec3<"@ + rest);
    assert(four =~= "vec4<"@ + rest);
    law_a_start_is_taken_off("vec2<"@, rest);
    law_a_start_is_taken_off("vec3<"@, rest);
    law_a_start_is_taken_off("vec4<"@, rest);
    assert(two.len() > 3 && three.len() > 3 && four.len() > 3);
    assert(three[3] == '3' && four[3] == '4');
    lemma_starts_otherwise(three, "vec2<"@, 3);
    lemma_starts_otherwise(four, "vec2<"@, 3);
    lemma_starts_otherwise(four, "vec3<"@, 3);
}

/// The parameters a source declares fit in a uniform of one thousand and twenty four bytes.
pub proof fn law_the_uniform_has_a_limit(source: Seq<char>, i: int)
    ensures
        declared(source) matches Ok(fields) ==> 0 <= i < fields.len() ==> fields[i].offset + 4
            * fields[i].ty.count() <= 1024,
{
    law_declared_parameters_are_laid_out(source);
}

} // verus!
