//! How documents come into the case library and how questions are answered.

use vstd::prelude::*;

use crate::api::SearchMemoryRequest;
use crate::case_chunker::PartView;
use crate::case_config;
use crate::case_config::{EmbeddingProviderKind, EnvironmentValue};
use crate::case_llm;
use crate::case_model::{
    ChunkView, CreateDocumentFileRequest, SearchChunkView, SearchRequest, StoredDocumentView,
    UpdateDocumentFileRequest,
};
use crate::case_profile;
use crate::case_profile::ProfileView;
use crate::case_service;
use crate::case_retrieval;
use crate::case_service::{
    answer_text, answer_to, change_problem, changed_name, document_records, numbered_chunk,
    safe_name, searched_as, shown, source_of, upload_problem, ErrorAnswer,
};
use crate::case_store;
use crate::case_store::LibraryView;
use crate::case_summary;
use crate::case_terms;
use crate::json;
use crate::json::JsonView;
use crate::scan;
use crate::text;

verus! {

/// A chunk is the part that it is made of, with its number in its id, and can be
/// shown.
pub proof fn chunks_are_their_parts(d: StoredDocumentView, p: PartView, i: nat, now: u64)
    requires
        i <= usize::MAX,
        p.token_count <= usize::MAX,
    ensures
        ({
            let c = numbered_chunk(d, p, i as int, now);
            &&& c.id == d.id + "_chunk_"@ + text::decimal_text(i)
            &&& c.dataset_id == d.dataset_id && c.document_id == d.id
            &&& c.chunk_index == i
            &&& c.content == p.content
            &&& c.token_count == p.token_count
            &&& c.chunk_type == p.chunk_type.name()
            &&& c.parse_topology == p.parse_topology.name()
            &&& c.source_node_indices.len() == p.sources.len()
            &&& forall|j: int|
                0 <= j < p.sources.len() && 0 <= p.sources[j] <= usize::MAX ==> (
                #[trigger] c.source_node_indices[j]) as int == p.sources[j]
            &&& c.available
            &&& c.created_at_ms == now && c.updated_at_ms == now
        }),
{
}

/// A document is indexed by a record for each chunk, under the chunk's id, and by
/// one for its summary behind them; a document without chunks is not indexed.
pub proof fn documents_are_indexed_by_chunks_and_summary(
    d: StoredDocumentView,
    chunks: Seq<ChunkView>,
    written: Option<Seq<char>>,
    i: int,
)
    requires
        0 <= i < chunks.len(),
    ensures
        ({
            let records = document_records(d, chunks, written);
            let c = chunks[i];
            let own = case_profile::profile_of(d.name, c.content);
            let (words, source) = searched_as(d, chunks, written);
            let whole = case_profile::profile_of(d.name, words);
            &&& records.len() == chunks.len() + 1
            &&& records[i].id == Some(c.id)
            &&& records[i].text == case_profile::weighted_text(c.content, own)
            &&& records[i].metadata == case_profile::chunk_metadata(d, c, own)
            &&& records.last().id == Some(d.id + "_document_summary"@)
            &&& records.last().text == case_profile::weighted_text(words, whole)
            &&& records.last().metadata == case_profile::summary_metadata(
                d,
                chunks.len() as usize,
                source,
                whole,
            )
        }),
        document_records(d, Seq::empty(), written).len() == 0,
{
}

/// A document is searched as its written summary says, where that says anything,
/// else as its own lines say.
pub proof fn written_summaries_are_preferred(
    d: StoredDocumentView,
    chunks: Seq<ChunkView>,
    written: Option<Seq<char>>,
)
    ensures
        ({
            let r = searched_as(d, chunks, written);
            let told = written is Some && case_summary::summary_lines(written->0).len() > 0;
            &&& told ==> r.1 == "llm"@ && r.0 == case_summary::document_text(
                d.name,
                case_summary::summary_lines(written->0),
            )
            &&& !told ==> r.1 == "offline"@ && r.0 == case_summary::document_text(
                d.name,
                case_summary::body_summary(chunks),
            )
        }),
{
}

proof fn lemma_parts_are_filled(parts: Seq<Seq<char>>, more: Seq<Seq<char>>)
    ensures
        case_profile::with_parts(parts, more) == parts + more.filter(
            |t: Seq<char>| !text::is_blank(t),
        ).map_values(|t: Seq<char>| text::trimmed(t)),
    decreases more.len(),
{
    reveal(Seq::filter);
    let at = |t: Seq<char>| text::trimmed(t);
    if more.len() > 0 {
        let t = more.drop_last();
        lemma_parts_are_filled(parts, t);
        let kept = t.filter(|t: Seq<char>| !text::is_blank(t));
        assert(kept.push(more.last()).map_values(at) =~= kept.map_values(at).push(
            text::trimmed(more.last()),
        ));
        assert((parts + kept.map_values(at)).push(text::trimmed(more.last())) =~= parts
            + kept.map_values(at).push(text::trimmed(more.last())));
    } else {
        assert(more.filter(|t: Seq<char>| !text::is_blank(t)).map_values(at) =~= Seq::empty());
        assert(parts + Seq::<Seq<char>>::empty() =~= parts);
    }
}

/// A text is indexed as its title twice, its keywords three times, its questions
/// and its context twice each, and its own words once; what is blank is left out.
pub proof fn texts_are_weighted(content: Seq<char>, p: ProfileView)
    ensures
        ({
            let all = seq![p.title_tks, p.title_tks] + seq![
                p.important_tks,
                p.important_tks,
                p.important_tks,
            ] + seq![p.question_tks, p.question_tks] + seq![p.context_tks, p.context_tks] + seq![
                case_terms::index_text(content),
            ];
            case_profile::weighted_text(content, p) == text::joined(
                all.filter(|t: Seq<char>| !text::is_blank(t)).map_values(
                    |t: Seq<char>| text::trimmed(t),
                ),
                " "@,
            )
        }),
{
    let all = seq![p.title_tks, p.title_tks] + seq![
        p.important_tks,
        p.important_tks,
        p.important_tks,
    ] + seq![p.question_tks, p.question_tks] + seq![p.context_tks, p.context_tks] + seq![
        case_terms::index_text(content),
    ];
    let listed = seq![
        p.title_tks,
        p.title_tks,
        p.important_tks,
        p.important_tks,
        p.important_tks,
        p.question_tks,
        p.question_tks,
        p.context_tks,
        p.context_tks,
        case_terms::index_text(content),
    ];
    assert(all =~= listed);
    lemma_parts_are_filled(Seq::empty(), listed);
    let filled = listed.filter(|t: Seq<char>| !text::is_blank(t)).map_values(
        |t: Seq<char>| text::trimmed(t),
    );
    assert(Seq::<Seq<char>>::empty() + filled =~= filled);
}

/// The profile of a text has the words of the title, the keywords of title and
/// text, their words, those of the questions and those of the context.
pub proof fn profiles_are_made_of_title_and_text(name: Seq<char>, content: Seq<char>)
    ensures
        ({
            let p = case_profile::profile_of(name, content);
            let title = case_summary::title_of(name);
            &&& p.title_tks == case_terms::index_text(title)
            &&& p.important_kwd == case_profile::keywords_of(title + seq!['\n'] + content)
            &&& p.important_tks == case_terms::index_text(text::joined(p.important_kwd, " "@))
            &&& p.question_tks == case_terms::index_text(
                text::joined(case_profile::questions_state(content).0, " "@),
            )
            &&& p.context_tks == case_terms::index_text(
                case_profile::context_of(title, content, p.important_kwd),
            )
        }),
{
    let title = case_summary::title_of(name);
    assert(title.push('\n') + content =~= title + seq!['\n'] + content);
}

/// The context of a text is its title, its keywords and its best lines, each on a
/// line of its own; what is blank is left out.
pub proof fn contexts_are_made_of_lines(
    title: Seq<char>,
    content: Seq<char>,
    keywords: Seq<Seq<char>>,
)
    ensures
        case_profile::context_of(title, content, keywords) == text::joined(
            (seq![title, text::joined(keywords, " "@)] + case_summary::best_lines(content)).filter(
                |t: Seq<char>| !text::is_blank(t),
            ).map_values(|t: Seq<char>| text::trimmed(t)),
            "\n"@,
        ),
{
    let none = Seq::<Seq<char>>::empty();
    let words = text::joined(keywords, " "@);
    let best = case_summary::best_lines(content);
    let two = seq![title, words];
    assert(two.drop_last() =~= seq![title]);
    assert(seq![title].drop_last() =~= none);
    assert(case_profile::with_parts(none, none) == none);
    assert(case_profile::with_parts(none, seq![title]) == case_summary::with_filled(none, title));
    assert(case_profile::with_parts(none, two) == case_summary::with_filled(
        case_summary::with_filled(none, title),
        words,
    ));
    lemma_parts_in_turn(none, two, best);
    lemma_parts_are_filled(none, two + best);
    let filled = (two + best).filter(|t: Seq<char>| !text::is_blank(t)).map_values(
        |t: Seq<char>| text::trimmed(t),
    );
    assert(none + filled =~= filled);
}

proof fn lemma_parts_in_turn(parts: Seq<Seq<char>>, a: Seq<Seq<char>>, b: Seq<Seq<char>>)
    ensures
        case_profile::with_parts(case_profile::with_parts(parts, a), b)
            == case_profile::with_parts(parts, a + b),
    decreases b.len(),
{
    if b.len() == 0 {
        assert(a + b =~= a);
    } else {
        lemma_parts_in_turn(parts, a, b.drop_last());
        assert((a + b).drop_last() =~= a + b.drop_last());
        assert((a + b).last() == b.last());
    }
}

/// An answer says how many chunks were found and shows each of them with its
/// source, in the order of the search; where nothing was found, it says so.
pub proof fn answers_show_what_was_found(chunks: Seq<SearchChunkView>)
    ensures
        chunks.len() == 0 ==> answer_text(chunks) == "No relevant content was found."@,
        chunks.len() > 0 ==> answer_text(chunks) == "Found "@ + text::decimal_text(chunks.len())
            + " relevant chunks. Main retrieved content for answer augmentation:\n"@
            + text::joined(chunks.map_values(|c: SearchChunkView| shown(c)), "\n\n"@),
{
    assert(case_service::shown_all(chunks) =~= chunks.map_values(|c: SearchChunkView| shown(c)));
}

/// A chunk is shown under the name of its document, or else its path, or else its
/// id, with the start of its content.
pub proof fn chunks_are_shown_with_their_source(c: SearchChunkView)
    ensures
        c.source_name is Some ==> source_of(c) == c.source_name->0,
        c.source_name is None && c.source_path is Some ==> source_of(c) == c.source_path->0,
        c.source_name is None && c.source_path is None ==> source_of(c) == c.document_id,
        c.content.len() <= 180 ==> shown(c) == "Source: "@ + source_of(c) + "\n"@ + c.content,
        c.content.len() > 180 ==> shown(c) == "Source: "@ + source_of(c) + "\n"@ + (c.content.take(
            180,
        ) + "..."@),
{
}

/// What is not found is answered so; else what must be or is required is a bad
/// request, and anything else an internal error.
pub proof fn errors_are_answered_by_what_they_say(message: Seq<char>)
    ensures
        ({
            let missing = text::contains_text(message, "not found"@);
            let wrong = text::contains_text(message, "must"@) || text::contains_text(
                message,
                "requires"@,
            ) || text::contains_text(message, "required"@);
            &&& answer_to(message) == ErrorAnswer::NotFound <==> missing
            &&& answer_to(message) == ErrorAnswer::BadRequest <==> !missing && wrong
            &&& answer_to(message) == ErrorAnswer::Internal <==> !missing && !wrong
        }),
{
}

/// An upload is refused for a dataset that is not there, else for a blank id, else
/// for an empty file, else for a file without a name, and for nothing else.
pub proof fn uploads_are_refused_for_a_reason(
    l: LibraryView,
    dataset_id: Seq<char>,
    r: CreateDocumentFileRequest,
)
    ensures
        ({
            let problem = upload_problem(l, dataset_id, r);
            let known = case_store::has_dataset(l, dataset_id);
            let blank_id = r.id is Some && text::is_blank(r.id->0@);
            let blank_task = r.task_id is Some && text::is_blank(r.task_id->0@);
            let empty = r.bytes@.len() == 0;
            let unnamed = safe_name(r.file_name@).len() == 0;
            &&& !known ==> problem == Some("dataset not found"@)
            &&& known && blank_id ==> problem == Some("document id"@ + " must not be empty"@)
            &&& known && !blank_id && blank_task ==> problem == Some(
                "task id"@ + " must not be empty"@,
            )
            &&& known && !blank_id && !blank_task && empty ==> problem == Some(
                "document file must not be empty"@,
            )
            &&& known && !blank_id && !blank_task && !empty && unnamed ==> problem == Some(
                "file name must not be empty"@,
            )
            &&& known && !blank_id && !blank_task && !empty && !unnamed ==> problem is None
        }),
{
}

/// A change is accepted if and only if its task id is not blank and it brings a
/// file with a name, or else a name for the document.
pub proof fn changes_bring_a_file_or_a_name(r: UpdateDocumentFileRequest)
    ensures
        change_problem(r) is None <==> (!(r.task_id is Some && text::is_blank(r.task_id->0@)) && (
        if r.bytes is Some {
            r.bytes->0@.len() > 0 && r.file_name is Some && safe_name(r.file_name->0@).len() > 0
        } else {
            r.name is Some && !text::is_blank(r.name->0@)
        })),
{
}

/// A document takes the name that a change brings, trimmed, and keeps its own
/// where it brings none.
pub proof fn names_change_where_one_is_given(
    existing: StoredDocumentView,
    r: UpdateDocumentFileRequest,
)
    ensures
        r.name is Some && !text::is_blank(r.name->0@) ==> changed_name(existing, r)
            == text::trimmed(r.name->0@),
        r.name is None || text::is_blank(r.name->0@) ==> changed_name(existing, r)
            == existing.name,
{
}

/// Whether a text can be the name of a file: it is not empty, has no slash, and is
/// not the name of a directory on the way.
pub open spec fn is_plain_name(name: Seq<char>) -> bool {
    &&& name.len() > 0
    &&& !name.contains('/')
    &&& name != seq!['.']
    &&& name != seq!['.', '.']
}

proof fn lemma_behind_slash(dir: Seq<char>, name: Seq<char>)
    requires
        !name.contains('/'),
        dir.len() == 0 || dir.last() == '/',
    ensures
        scan::behind_last_slash(dir + name) == name,
    decreases name.len(),
{
    if name.len() == 0 {
        assert(dir + name =~= dir);
        assert(name =~= Seq::empty());
    } else {
        let t = name.drop_last();
        let all = dir + name;
        assert(all.last() == name.last());
        assert(name.contains(name[name.len() - 1]));
        assert forall|c: char| #[trigger] t.contains(c) implies name.contains(c) by {
            let i = choose|i: int| 0 <= i < t.len() && t[i] == c;
            assert(name[i] == c);
        }
        assert(all.drop_last() =~= dir + t);
        lemma_behind_slash(dir, t);
        assert(t.push(name.last()) =~= name);
    }
}

/// The file of a path is what stands behind its last slash.
pub proof fn files_stand_behind_the_last_slash(dir: Seq<char>, name: Seq<char>)
    requires
        is_plain_name(name),
        dir.len() == 0 || dir.last() == '/',
    ensures
        scan::file_name_of(dir + name) == Some(name),
{
    let all = dir + name;
    assert(all.last() == name.last());
    assert(name.contains(name[name.len() - 1]));
    lemma_behind_slash(dir, name);
    if all.last() == '.' && all.len() > 1 && all[all.len() - 2] == '/' {
        if name.len() == 1 {
            assert(name =~= seq!['.']);
        } else {
            assert(name[name.len() - 2] == '/');
            assert(name.contains('/'));
        }
    }
}

/// The extension of a file stands behind its last dot, and its stem before it; a
/// name without a dot, or with one at its start only, has no extension.
pub proof fn extensions_stand_behind_the_last_dot(stem: Seq<char>, ext: Seq<char>)
    requires
        stem.len() > 0,
        !ext.contains('.'),
        is_plain_name(stem.push('.') + ext),
    ensures
        scan::extension_of(stem.push('.') + ext) == Some(ext),
        scan::stem_of(stem.push('.') + ext) == Some(stem),
{
    let name = stem.push('.') + ext;
    files_stand_behind_the_last_slash(Seq::empty(), name);
    assert(Seq::<char>::empty() + name =~= name);
    lemma_last_dot(stem, ext);
    assert(name.skip(stem.len() as int + 1) =~= ext);
    assert(name.take(stem.len() as int) =~= stem);
}

proof fn lemma_last_dot(stem: Seq<char>, ext: Seq<char>)
    requires
        !ext.contains('.'),
    ensures
        scan::last_dot(stem.push('.') + ext) == stem.len(),
    decreases ext.len(),
{
    let all = stem.push('.') + ext;
    if ext.len() == 0 {
        assert(all =~= stem.push('.'));
    } else {
        let t = ext.drop_last();
        assert(ext.contains(ext[ext.len() - 1]));
        assert(all.last() == ext.last());
        assert forall|c: char| #[trigger] t.contains(c) implies ext.contains(c) by {
            let i = choose|i: int| 0 <= i < t.len() && t[i] == c;
            assert(ext[i] == c);
        }
        assert(all.drop_last() =~= stem.push('.') + t);
        lemma_last_dot(stem, t);
    }
}

/// The file of a document stands in a directory of the document, in one of its
/// dataset.
pub proof fn files_stand_with_their_document(
    root: Seq<char>,
    dataset_id: Seq<char>,
    document_id: Seq<char>,
    file_name: Seq<char>,
)
    requires
        root.len() > 0 && root.last() != '/',
        dataset_id.len() > 0 && dataset_id[0] != '/' && dataset_id.last() != '/',
        document_id.len() > 0 && document_id[0] != '/' && document_id.last() != '/',
        file_name.len() > 0 && file_name[0] != '/',
    ensures
        case_service::document_path(root, dataset_id, document_id, file_name) == root + seq!['/']
            + dataset_id + seq!['/'] + document_id + seq!['/'] + file_name,
{
    let a = root + seq!['/'] + dataset_id;
    let b = a + seq!['/'] + document_id;
    assert(root.push('/') + dataset_id =~= a);
    assert(a.last() == dataset_id.last());
    assert(a.push('/') + document_id =~= b);
    assert(b.last() == document_id.last());
    assert(b.push('/') + file_name =~= b + seq!['/'] + file_name);
}

/// Only hashing and the compatible services have a name of a provider.
pub proof fn providers_have_names(name: Seq<char>)
    ensures
        ({
            let r = case_config::provider_named(name);
            &&& r == Some(EmbeddingProviderKind::Hash) <==> name == "hash"@
            &&& name != "hash"@ ==> (r == Some(EmbeddingProviderKind::OpenAiCompatible) <==> name
                == "openai_compatible"@ || name == "open_router"@)
            &&& r is None <==> name != "hash"@ && name != "openai_compatible"@ && name
                != "open_router"@
        }),
{
}

/// A token is taken if and only if its variable has a name without space around
/// it, and holds a text that is neither blank nor with space around it.
pub proof fn tokens_are_taken_as_they_are(name: Seq<char>, value: EnvironmentValue)
    ensures
        case_config::token_problem(name, value) is None <==> (name.len() > 0 && text::trimmed(name)
            == name && value is Text && value->Text_0@.len() > 0 && text::trimmed(value->Text_0@)
            == value->Text_0@),
{
}

/// A setting counts if it is not blank, and without the space around it.
pub proof fn settings_count_when_filled(t: Option<Seq<char>>)
    ensures
        case_config::filled(t) is Some <==> t is Some && text::trimmed(t->0).len() > 0,
        case_config::filled(t) is Some ==> case_config::filled(t)->0 == text::trimmed(t->0),
{
}

/// An embedding service can be used if and only if it has a key, an address and a
/// model that are not blank; the key is looked at first, then the address.
pub proof fn services_need_a_key_and_a_model(
    key_name: Seq<char>,
    key: Option<Seq<char>>,
    base_url: Seq<char>,
    model: Seq<char>,
)
    ensures
        ({
            let problem = case_config::embedding_problem(key_name, key, base_url, model);
            let keyed = key is Some && !text::is_blank(key->0);
            &&& problem is None <==> keyed && !text::is_blank(base_url) && !text::is_blank(model)
            &&& key is None ==> problem == Some(
                "embedding API key environment variable `"@ + key_name + "` is unavailable"@,
            )
            &&& key is Some && text::is_blank(key->0) ==> problem == Some(
                "embedding API key environment variable `"@ + key_name + "` is empty"@,
            )
            &&& keyed && text::is_blank(base_url) ==> problem == Some(
                "embedding base URL is empty"@,
            )
            &&& keyed && !text::is_blank(base_url) && text::is_blank(model) ==> problem == Some(
                "embedding model is empty"@,
            )
        }),
{
}

/// Delays start at fifty milliseconds and double, up to half a second.
pub proof fn delays_double_up_to_their_limit(attempt: nat)
    ensures
        case_config::lock_delay(0) == 50,
        50 <= case_config::lock_delay(attempt) <= 500,
        case_config::lock_delay(attempt) <= 250 ==> case_config::lock_delay(attempt + 1) == 2
            * case_config::lock_delay(attempt),
        case_config::lock_delay(attempt) > 250 ==> case_config::lock_delay(attempt + 1) == 500,
    decreases attempt,
{
    if attempt > 0 {
        delays_double_up_to_their_limit((attempt - 1) as nat);
    }
}

/// A written summary is its lines that say something, each trimmed and on a line
/// of its own; of several, the first counts.
pub proof fn written_summaries_are_cleaned(choices: Seq<Seq<char>>)
    requires
        choices.len() > 0,
    ensures
        case_llm::first_summary(choices) == text::joined(
            text::lines_of(choices[0]).filter(|t: Seq<char>| !text::is_blank(t)).map_values(
                |t: Seq<char>| text::trimmed(t),
            ),
            "\n"@,
        ),
{
    lemma_filled_lines(text::lines_of(choices[0]));
}

proof fn lemma_filled_lines(lines: Seq<Seq<char>>)
    ensures
        case_llm::filled_lines(lines) == lines.filter(
            |t: Seq<char>| !text::is_blank(t),
        ).map_values(|t: Seq<char>| text::trimmed(t)),
    decreases lines.len(),
{
    reveal(Seq::filter);
    let at = |t: Seq<char>| text::trimmed(t);
    if lines.len() > 0 {
        let t = lines.drop_last();
        lemma_filled_lines(t);
        let kept = t.filter(|t: Seq<char>| !text::is_blank(t));
        assert(kept.push(lines.last()).map_values(at) =~= kept.map_values(at).push(
            text::trimmed(lines.last()),
        ));
    } else {
        assert(lines.filter(|t: Seq<char>| !text::is_blank(t)).map_values(at) =~= Seq::empty());
    }
}

/// Files of Markdown and of plain text have their media types, whatever the case
/// of their extensions; others have none.
pub proof fn media_types_go_by_extension(path: Seq<char>)
    ensures
        ({
            let e = text::ascii_lower_text(scan::extension_of(path)->0);
            let known = scan::extension_of(path) is Some;
            let markdown = known && (e == "md"@ || e == "markdown"@ || e == "mdx"@);
            let plain = known && (e == "txt"@ || e == "text"@ || e == "log"@);
            &&& markdown ==> case_config::media_type_of(path) == Some("text/markdown"@)
            &&& !markdown && plain ==> case_config::media_type_of(path) == Some("text/plain"@)
            &&& !markdown && !plain ==> case_config::media_type_of(path) is None
        }),
{
}

/// A line that fits is put below a text; an empty text becomes the line.
pub proof fn lines_are_put_below(s: Seq<char>, line: Seq<char>, max: nat)
    requires
        s.len() + 1 + line.len() <= max,
    ensures
        s.len() > 0 ==> case_summary::with_limited_line(s, line, max) == s + seq!['\n'] + line,
        s.len() == 0 ==> case_summary::with_limited_line(s, line, max) == line,
{
    reveal_strlit("\n");
    assert("\n"@ =~= seq!['\n']);
    assert(s.len() == 0 ==> s + line =~= line);
}

/// A search asks the index for the words of the trimmed query, for a thousand
/// results or more, in its own dataset, and asks no graph.
pub proof fn searches_ask_their_dataset(
    q: SearchMemoryRequest,
    dataset_id: Seq<char>,
    r: SearchRequest,
)
    requires
        case_retrieval::is_dataset_query(q, dataset_id, r),
    ensures
        q.query@ == case_terms::query_text(text::trimmed(r.query@)),
        q.top_k >= 1024 && q.top_k >= r.top_k && (q.top_k == 1024 || q.top_k == r.top_k),
        q.filter is Some && q.filter->0@ is Object,
        json::json_get(q.filter->0@, "scope_id"@) == Some(JsonView::Text(dataset_id)),
        q.graph_memory_space_id is None,
{
    json::put_then_get(
        json::empty_object(),
        "scope_id"@,
        JsonView::Text(dataset_id),
        "scope_id"@,
    );
}

/// What is stored of an upload is what was brought: its bytes are counted, its file
/// is kept under its own name, and it is named as it is asked or after its file.
pub proof fn uploads_are_stored_as_brought(
    p: case_service::PlanView,
    root: Seq<char>,
    dataset_id: Seq<char>,
    r: CreateDocumentFileRequest,
)
    requires
        case_service::stores_upload(p, root, dataset_id, r),
    ensures
        r.id is Some ==> p.document_id == text::trimmed(r.id->0@),
        r.id is None ==> p.document_id.len() == 36,
        r.task_id is Some ==> p.task_id == text::trimmed(r.task_id->0@),
        r.task_id is None ==> p.task_id.len() == 36,
        p.size_bytes == r.bytes@.len(),
        p.mime_type == json::opt_string(r.mime_type),
        !text::is_blank(r.name@) ==> p.name == text::trimmed(r.name@),
        text::is_blank(r.name@) ==> p.name == safe_name(r.file_name@),
        p.file_path == case_service::document_path(
            root,
            dataset_id,
            p.document_id,
            safe_name(r.file_name@),
        ),
{
}

/// What is stored of a change is what it brings, and what it does not bring stays.
pub proof fn changes_are_stored_as_brought(
    p: case_service::PlanView,
    root: Seq<char>,
    existing: StoredDocumentView,
    r: UpdateDocumentFileRequest,
    kept_size: u64,
)
    requires
        case_service::stores_change(p, root, existing, r, kept_size),
    ensures
        p.document_id == existing.id,
        r.name is Some && !text::is_blank(r.name->0@) ==> p.name == text::trimmed(r.name->0@),
        r.name is None || text::is_blank(r.name->0@) ==> p.name == existing.name,
        r.bytes is None ==> p.file_path == existing.file_path && p.mime_type == existing.mime_type
            && p.size_bytes == kept_size,
        r.bytes is Some ==> p.size_bytes == r.bytes->0@.len() && p.file_path
            == case_service::document_path(
            root,
            existing.dataset_id,
            existing.id,
            safe_name(r.file_name->0@),
        ),
        r.bytes is Some && r.mime_type is Some ==> p.mime_type == Some(r.mime_type->0@),
        r.bytes is Some && r.mime_type is None ==> p.mime_type == existing.mime_type,
{
}

/// A score is high enough if it is no less than the least that counts, and is a
/// number: whatever is higher than one that counts counts too.
pub proof fn higher_scores_are_relevant(a: i32, b: i32)
    requires
        case_retrieval::is_relevant(a),
        a <= b <= crate::api::INFINITE_PLACE,
    ensures
        case_retrieval::is_relevant(b),
        a >= case_retrieval::MIN_RELEVANCE_PLACE,
{
}

/// A setting is a number if it is a row of digits within range, whatever space is
/// around it.
pub proof fn settings_are_numbers_within_range(t: Option<Seq<char>>)
    ensures
        ({
            let n = case_config::number_in(t);
            let read = text::parsed_number(text::trimmed(t->0));
            &&& n is Some <==> t is Some && read is Some && read->0 <= u64::MAX
            &&& n is Some ==> n == read
        }),
{
}

/// A default stands only where there is no setting.
pub proof fn defaults_stand_where_nothing_is_set(t: Option<Seq<char>>, default: Seq<char>)
    ensures
        t is Some ==> case_config::or_text(t, default) == t->0,
        t is None ==> case_config::or_text(t, default) == default,
{
}

} // verus!
