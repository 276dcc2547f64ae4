//! The instructions handed to Codex: the standing image-generation contract,
//! the per-node request, the same-run conditioning rules, and the recovery
//! prompt used to salvage an interrupted run.

use vstd::prelude::*;

use crate::boards::BoardNode;
use crate::model::{ChatMessage, ChatRole, NodeStatus};
use crate::strings::{
    chars_of, decimal, decimal_string, join, join_path, join_path_text, join_strings, owned,
    push_char, push_str, push_string, same_text, string_from_chars, string_from_range,
};

verus! {

/// The standing contract of every generation run.
pub const PREAMBLE: &'static str = r#"You are an expert image-generation assistant.

Hard rules:
- ALWAYS create every final visual deliverable implied by the request with your built-in image generation tool. Never draw images with code (SVG/HTML/canvas), never substitute placeholders, and never fetch images from the web.
- Infer the number of final deliverables from the request. A single scene normally needs one; a ten-page comic needs ten separate ordered images. Never combine multiple requested deliverables into a contact sheet or collage unless the user explicitly asks for that format.
- You may call the image generation tool again whenever an output needs correction. At the end, select the best final result for each intended deliverable and omit every superseded attempt.
- The app captures generated files automatically. Do NOT run shell commands to copy, move, inspect, or verify image files unless the user explicitly asks for file operations.
- Your final response must follow the supplied JSON schema. Put only selected final images in `outputs`, in the semantic order requested by the user. For each output, use the exact absolute saved path returned by the image generation tool and a short identifying label. Never include a superseded attempt. Set `complete` to true only when the selected outputs fulfill the entire request; otherwise set it to false. Keep `summary` to one concise sentence.
- Structured progress updates are not final selections: while any render is pending, set `complete` to false and leave `outputs` empty. Populate `outputs` only in the terminal response after every render and correction has settled.

Prompting the image tool:
- Rewrite the request into a clean spec ordered scene/backdrop -> subject -> key details -> constraints, and include the intended use to set the polish level. For complex requests use short labeled lines.
- Match augmentation to specificity. Never invent characters, props, brands, slogans, palettes, or story beats the user did not imply.
- For photorealism, use photography language and ask for real-world texture and imperfect everyday detail.
- If text must appear in the image, quote it verbatim, specify typography and placement, spell uncommon words letter-by-letter, and require exact rendering with no extra characters.
- When image files are provided, treat each by its stated role. For compositing, match lighting, perspective, and scale.
- For edits, state invariants explicitly. Preserve identity aggressively when people are involved and preserve everything the request does not ask to change."#;

/// The last `limit` characters of `value`, or all of it when it is shorter.
pub open spec fn tail_chars_spec(value: Seq<char>, limit: nat) -> Seq<char> {
    if value.len() <= limit {
        value
    } else {
        value.skip(value.len() - limit)
    }
}

/// The last `limit` characters of `value`.
pub fn tail_chars(value: &str, limit: usize) -> (result: String)
    ensures
        result@ == tail_chars_spec(value@, limit as nat),
{
    let chars = chars_of(value);
    if chars.len() <= limit {
        return string_from_chars(&chars);
    }
    let result = string_from_range(&chars, chars.len() - limit, chars.len());
    assert(chars@.subrange((chars@.len() - limit) as int, chars@.len() as int) =~= chars@.skip(
        chars@.len() - limit,
    ));
    result
}

/// `prompt` cut to `limit` characters with a trailing ellipsis when longer.
pub open spec fn excerpt_spec(prompt: Seq<char>, limit: nat) -> Seq<char> {
    if prompt.len() > limit {
        prompt.take(if limit >= 3 {
            limit - 3
        } else {
            0
        }) + seq!['…']
    } else {
        prompt
    }
}

/// Shortens a prompt for a history section.
pub fn excerpt(prompt: &str, limit: usize) -> (result: String)
    ensures
        result@ == excerpt_spec(prompt@, limit as nat),
{
    let chars = chars_of(prompt);
    if chars.len() > limit {
        let keep = if limit >= 3 {
            limit - 3
        } else {
            0
        };
        let mut result = string_from_range(&chars, 0, keep);
        push_char(&mut result, '…');
        assert(chars@.subrange(0, keep as int) =~= chars@.take(keep as int));
        result
    } else {
        string_from_chars(&chars)
    }
}

/// One line of a numbered list: "N. text".
pub open spec fn numbered_line(index: int, text: Seq<char>) -> Seq<char> {
    decimal((index + 1) as nat) + ". "@ + text
}

/// `prompts` as a numbered list, one per line, starting at 1.
pub open spec fn numbered_spec(prompts: Seq<Seq<char>>) -> Seq<char> {
    join(Seq::new(prompts.len(), |i: int| numbered_line(i, prompts[i])), "\n"@)
}

/// Numbers the prompts of a history section.
pub fn numbered(prompts: &Vec<String>) -> (result: String)
    ensures
        result@ == numbered_spec(prompts.deep_view()),
{
    let mut lines: Vec<String> = Vec::new();
    let mut index: usize = 0;
    while index < prompts.len()
        invariant
            index <= prompts@.len(),
            lines@.len() == index,
            forall|i: int|
                0 <= i < index ==> #[trigger] lines@[i]@ == numbered_line(
                    i,
                    prompts.deep_view()[i],
                ),
        decreases prompts@.len() - index,
    {
        let mut line = decimal_string(index as u128 + 1);
        push_str(&mut line, ". ");
        push_str(&mut line, prompts[index].as_str());
        lines.push(line);
        index += 1;
    }
    assert(lines.deep_view() =~= Seq::new(
        prompts.deep_view().len(),
        |i: int| numbered_line(i, prompts.deep_view()[i]),
    ));
    join_strings(&lines, "\n")
}

/// One bullet line: "- text".
pub open spec fn bullet_line(text: Seq<char>) -> Seq<char> {
    "- "@ + text
}

/// `paths` as a bulleted list, one per line.
pub open spec fn bullet_paths_spec(paths: Seq<Seq<char>>) -> Seq<char> {
    join(paths.map_values(|path: Seq<char>| bullet_line(path)), "\n"@)
}

/// Lists file paths for a prompt section.
pub fn bullet_paths(paths: &Vec<String>) -> (result: String)
    ensures
        result@ == bullet_paths_spec(paths.deep_view()),
{
    let mut lines: Vec<String> = Vec::new();
    let mut index: usize = 0;
    while index < paths.len()
        invariant
            index <= paths@.len(),
            lines@.len() == index,
            forall|i: int| 0 <= i < index ==> #[trigger] lines@[i]@ == bullet_line(paths.deep_view()[i]),
        decreases paths@.len() - index,
    {
        let mut line = owned("- ");
        push_str(&mut line, paths[index].as_str());
        lines.push(line);
        index += 1;
    }
    assert(lines.deep_view() =~= paths.deep_view().map_values(|path: Seq<char>| bullet_line(path)));
    join_strings(&lines, "\n")
}

/// `text` with every `'` replaced by `replacement`.
pub open spec fn replace_quotes(text: Seq<char>, replacement: Seq<char>) -> Seq<char>
    decreases text.len(),
{
    if text.len() == 0 {
        Seq::empty()
    } else {
        replace_quotes(text.drop_last(), replacement) + (if text.last() == '\'' {
            replacement
        } else {
            seq![text.last()]
        })
    }
}

fn quoted(text: &str, replacement: &str) -> (result: String)
    ensures
        result@ == seq!['\''] + replace_quotes(text@, replacement@) + seq!['\''],
{
    let chars = chars_of(text);
    let mut result = owned("'");
    let mut index: usize = 0;
    proof {
        reveal_strlit("'");
        assert(chars@.take(0) =~= Seq::<char>::empty());
        assert(result@ =~= seq!['\''] + replace_quotes(chars@.take(0), replacement@));
    }
    while index < chars.len()
        invariant
            index <= chars@.len(),
            chars@ == text@,
            result@ == seq!['\''] + replace_quotes(chars@.take(index as int), replacement@),
        decreases chars@.len() - index,
    {
        if chars[index] == '\'' {
            push_str(&mut result, replacement);
        } else {
            push_char(&mut result, chars[index]);
        }
        assert(chars@.take(index + 1).drop_last() =~= chars@.take(index as int));
        assert(result@ =~= seq!['\''] + replace_quotes(chars@.take(index + 1), replacement@));
        index += 1;
    }
    push_char(&mut result, '\'');
    assert(chars@.take(chars@.len() as int) =~= chars@);
    result
}

/// A path quoted for a POSIX shell: single quotes, with each `'` written as
/// `'\''`.
pub open spec fn shell_quote_spec(path: Seq<char>) -> Seq<char> {
    seq!['\''] + replace_quotes(path, "'\\''"@) + seq!['\'']
}

/// A path quoted for PowerShell: single quotes, with each `'` doubled.
pub open spec fn powershell_quote_spec(path: Seq<char>) -> Seq<char> {
    seq!['\''] + replace_quotes(path, "''"@) + seq!['\'']
}

/// Quotes a path for a POSIX shell.
pub fn shell_quote(path: &str) -> (result: String)
    ensures
        result@ == shell_quote_spec(path@),
{
    quoted(path, "'\\''")
}

/// Quotes a path for PowerShell.
pub fn powershell_quote(path: &str) -> (result: String)
    ensures
        result@ == powershell_quote_spec(path@),
{
    quoted(path, "''")
}

/// The command that conditions a generated image into `destination`, for a
/// POSIX shell.
pub open spec fn conditioning_command_spec(executable: Seq<char>, destination: Seq<char>) -> Seq<
    char,
> {
    shell_quote_spec(executable) + " --condition-image '<RAW_GENERATED_PATH>' "@
        + shell_quote_spec(destination)
}

/// The same command for PowerShell, where the call operator is required for
/// a quoted executable path.
pub open spec fn powershell_conditioning_command_spec(
    executable: Seq<char>,
    destination: Seq<char>,
) -> Seq<char> {
    "& "@ + powershell_quote_spec(executable) + " --condition-image '<RAW_GENERATED_PATH>' "@
        + powershell_quote_spec(destination)
}

/// Builds the POSIX conditioning command.
pub fn conditioning_command(executable: &str, destination: &str) -> (command: String)
    ensures
        command@ == conditioning_command_spec(executable@, destination@),
{
    let mut command = shell_quote(executable);
    push_str(&mut command, " --condition-image '<RAW_GENERATED_PATH>' ");
    let quoted_destination = shell_quote(destination);
    push_str(&mut command, quoted_destination.as_str());
    command
}

/// Builds the PowerShell conditioning command.
pub fn powershell_conditioning_command(executable: &str, destination: &str) -> (command: String)
    ensures
        command@ == powershell_conditioning_command_spec(executable@, destination@),
{
    let mut command = owned("& ");
    let quoted_executable = powershell_quote(executable);
    push_str(&mut command, quoted_executable.as_str());
    push_str(&mut command, " --condition-image '<RAW_GENERATED_PATH>' ");
    let quoted_destination = powershell_quote(destination);
    push_str(&mut command, quoted_destination.as_str());
    command
}

pub const SAME_RUN_HEAD: &'static str = "Same-run generated-image dependencies:
- When an image generated in this run will be supplied to any later image-generation call, condition it synchronously first. This is the sole permitted exception to the shell-file-operation prohibition above.
- For every generated input, replace `<RAW_GENERATED_PATH>` and `N`, then run exactly: `";

pub const SAME_RUN_TAIL: &'static str = "`
- Pass only the resulting PNG path(s) to the later image-generation call through `referenced_image_paths`. Do not use `num_last_images_to_include` or conversation-carried raw images for a dependent call.
- Do not condition independent outputs that will not be reused as image inputs.
- Conditioned PNGs are intermediate inputs only. Never put them in the final `outputs`; final selections must still use the raw absolute paths returned by the image-generation tool.";

/// The rules for conditioning images that a run feeds back into itself,
/// around the exact command to run.
pub open spec fn same_run_section_spec(command: Seq<char>) -> Seq<char> {
    SAME_RUN_HEAD@ + command + SAME_RUN_TAIL@
}

fn same_run_section(command: &str) -> (section: String)
    ensures
        section@ == same_run_section_spec(command@),
{
    let mut section = owned(SAME_RUN_HEAD);
    push_str(&mut section, command);
    push_str(&mut section, SAME_RUN_TAIL);
    section
}

/// The same-run conditioning section for a POSIX shell, writing into
/// `directory`.
pub fn same_run_conditioning_section(executable: &str, directory: &str) -> (section: String)
    ensures
        section@ == same_run_section_spec(
            conditioning_command_spec(executable@, join_path(directory@, "step-N.png"@)),
        ),
{
    let destination = join_path_text(directory, "step-N.png");
    let command = conditioning_command(executable, destination.as_str());
    same_run_section(command.as_str())
}

/// The same-run conditioning section for PowerShell.
pub fn powershell_same_run_conditioning_section(executable: &str, directory: &str) -> (section:
    String)
    ensures
        section@ == same_run_section_spec(
            powershell_conditioning_command_spec(
                executable@,
                join_path(directory@, "step-N.png"@),
            ),
        ),
{
    let destination = join_path_text(directory, "step-N.png");
    let command = powershell_conditioning_command(executable, destination.as_str());
    same_run_section(command.as_str())
}


pub const RECOVERY_INTRO: &'static str = "You are finalizing an interrupted image-generation run.";

pub const RECOVERY_RULES: &'static str = "Hard rules: Do not generate, edit, copy, move, or delete images. View only the candidates below. Select the strongest final candidate for each intended deliverable in semantic order. Omit superseded attempts and duplicates. Return the supplied JSON schema and set complete accurately.";

/// The paragraphs of the recovery prompt.
pub open spec fn recovery_lines(
    prompt: Seq<char>,
    candidates: Seq<Seq<char>>,
    failure: Option<Seq<char>>,
) -> Seq<Seq<char>> {
    seq![RECOVERY_INTRO@, RECOVERY_RULES@, "Original request: "@ + prompt] + (match failure {
        Some(failure) => seq!["Generation interruption: "@ + failure],
        None => Seq::empty(),
    }) + seq!["Candidate files:"@] + Seq::new(
        candidates.len(),
        |i: int| numbered_line(i, candidates[i]),
    )
}

/// Asks Codex to pick final outputs among the images an interrupted run
/// left behind.
pub fn selection_recovery_prompt(
    prompt: &str,
    candidates: &Vec<String>,
    failure: Option<&str>,
) -> (text: String)
    ensures
        text@ == join(
            recovery_lines(
                prompt@,
                candidates.deep_view(),
                match failure {
                    Some(f) => Some(f@),
                    None => None,
                },
            ),
            "\n\n"@,
        ),
{
    let mut lines: Vec<String> = Vec::new();
    push_string(&mut lines, owned(RECOVERY_INTRO));
    push_string(&mut lines, owned(RECOVERY_RULES));
    let mut request = owned("Original request: ");
    push_str(&mut request, prompt);
    push_string(&mut lines, request);
    if let Some(failure) = failure {
        let mut line = owned("Generation interruption: ");
        push_str(&mut line, failure);
        push_string(&mut lines, line);
    }
    push_string(&mut lines, owned("Candidate files:"));
    let ghost head = lines.deep_view();
    let mut index: usize = 0;
    assert(lines.deep_view() =~= head + Seq::new(0, |i: int| numbered_line(i, candidates.deep_view()[i])));
    while index < candidates.len()
        invariant
            index <= candidates@.len(),
            lines.deep_view() == head + Seq::new(
                index as nat,
                |i: int| numbered_line(i, candidates.deep_view()[i]),
            ),
        decreases candidates@.len() - index,
    {
        let mut line = decimal_string(index as u128 + 1);
        push_str(&mut line, ". ");
        push_str(&mut line, candidates[index].as_str());
        let ghost before = lines.deep_view();
        push_string(&mut lines, line);
        assert(lines.deep_view() =~= head + Seq::new(
            (index + 1) as nat,
            |i: int| numbered_line(i, candidates.deep_view()[i]),
        ));
        index += 1;
    }
    let ghost failure_view = match failure {
        Some(f) => Some(f@),
        None => None,
    };
    assert(lines.deep_view() =~= recovery_lines(prompt@, candidates.deep_view(), failure_view));
    join_strings(&lines, "\n\n")
}

/// What prompt assembly reads of a board node.
#[derive(Clone, Debug)]
pub struct PromptNode {
    pub id: String,
    pub parent_id: Option<String>,
    pub prompt: String,
    pub aspect: String,
    pub merged_from: Vec<String>,
}

pub open spec fn opt_view(value: Option<String>) -> Option<Seq<char>> {
    match value {
        Some(text) => Some(text@),
        None => None,
    }
}

/// The index of the node a lookup by id finds: the last one carrying it, as
/// a map built from the node list keeps.
pub open spec fn find_index(nodes: Seq<PromptNode>, id: Seq<char>) -> Option<int>
    decreases nodes.len(),
{
    if nodes.len() == 0 {
        None
    } else if nodes.last().id@ == id {
        Some(nodes.len() - 1)
    } else {
        find_index(nodes.drop_last(), id)
    }
}

pub open spec fn find_optional(nodes: Seq<PromptNode>, id: Option<Seq<char>>) -> Option<int> {
    match id {
        Some(id) => find_index(nodes, id),
        None => None,
    }
}

proof fn lemma_find_index_bound(nodes: Seq<PromptNode>, id: Seq<char>)
    ensures
        find_index(nodes, id) matches Some(i) ==> 0 <= i < nodes.len() && nodes[i].id@ == id,
    decreases nodes.len(),
{
    if nodes.len() > 0 && nodes.last().id@ != id {
        lemma_find_index_bound(nodes.drop_last(), id);
    }
}

/// Finds the node a lookup by id returns.
pub fn find_node(nodes: &Vec<PromptNode>, id: &str) -> (index: Option<usize>)
    ensures
        match index {
            Some(i) => find_index(nodes@, id@) == Some(i as int),
            None => find_index(nodes@, id@) is None,
        },
        index matches Some(i) ==> i < nodes@.len(),
{
    let mut end = nodes.len();
    assert(nodes@.take(end as int) =~= nodes@);
    while end > 0
        invariant
            end <= nodes@.len(),
            find_index(nodes@, id@) == find_index(nodes@.take(end as int), id@),
        decreases end,
    {
        assert(nodes@.take(end as int).drop_last() =~= nodes@.take(end - 1));
        if same_text(nodes[end - 1].id.as_str(), id) {
            return Some(end - 1);
        }
        end -= 1;
    }
    None
}

/// The excerpted prompts of the node at `current` and its ancestors, newest
/// first, at most `fuel` of them.
pub open spec fn chain_from(nodes: Seq<PromptNode>, current: Option<int>, fuel: nat) -> Seq<
    Seq<char>,
>
    decreases fuel,
{
    match current {
        Some(i) => if fuel == 0 || i < 0 || i >= nodes.len() {
            Seq::empty()
        } else {
            seq![excerpt_spec(nodes[i].prompt@, 400)] + chain_from(
                nodes,
                find_optional(nodes, opt_view(nodes[i].parent_id)),
                (fuel - 1) as nat,
            )
        },
        None => Seq::empty(),
    }
}

pub const HISTORY_LIMIT: usize = 12;

/// The prompts of `start` and its ancestors, oldest first, each cut to 400
/// characters and at most twelve of them.
pub open spec fn prompt_chain_spec(nodes: Seq<PromptNode>, start: Option<Seq<char>>) -> Seq<
    Seq<char>,
> {
    chain_from(nodes, find_optional(nodes, start), HISTORY_LIMIT as nat).reverse()
}

fn find_optional_node(nodes: &Vec<PromptNode>, id: &Option<String>) -> (index: Option<usize>)
    ensures
        match index {
            Some(i) => find_optional(nodes@, opt_view(*id)) == Some(i as int),
            None => find_optional(nodes@, opt_view(*id)) is None,
        },
        index matches Some(i) ==> i < nodes@.len(),
{
    match id {
        Some(id) => find_node(nodes, id.as_str()),
        None => None,
    }
}

/// The history of the node `start` names, oldest first.
pub fn prompt_chain(nodes: &Vec<PromptNode>, start: &Option<String>) -> (chain: Vec<String>)
    ensures
        chain.deep_view() == prompt_chain_spec(nodes@, opt_view(*start)),
{
    let mut newest_first: Vec<String> = Vec::new();
    let mut current = find_optional_node(nodes, start);
    let ghost full = chain_from(nodes@, find_optional(nodes@, opt_view(*start)), HISTORY_LIMIT as nat);
    let mut fuel: usize = HISTORY_LIMIT;
    loop
        invariant
            fuel <= HISTORY_LIMIT,
            newest_first@.len() + fuel == HISTORY_LIMIT,
            current matches Some(i) ==> i < nodes@.len(),
            full == newest_first.deep_view() + chain_from(
                nodes@,
                match current {
                    Some(i) => Some(i as int),
                    None => None,
                },
                fuel as nat,
            ),
        ensures
            full == newest_first.deep_view(),
        decreases fuel,
    {
        match current {
            Some(i) => {
                if fuel == 0 {
                    assert(newest_first.deep_view() + Seq::<Seq<char>>::empty() =~= newest_first.deep_view());
                    break;
                }
                let line = excerpt(nodes[i].prompt.as_str(), 400);
                let ghost before = newest_first.deep_view();
                newest_first.push(line);
                assert(newest_first.deep_view() =~= before.push(excerpt_spec(nodes@[i as int].prompt@, 400)));
                let next = find_optional_node(nodes, &nodes[i].parent_id);
                assert(before + chain_from(nodes@, Some(i as int), fuel as nat) =~= newest_first.deep_view()
                    + chain_from(
                    nodes@,
                    match next {
                        Some(j) => Some(j as int),
                        None => None,
                    },
                    (fuel - 1) as nat,
                ));
                current = next;
                fuel -= 1;
            },
            None => {
                assert(newest_first.deep_view() + Seq::<Seq<char>>::empty() =~= newest_first.deep_view());
                break;
            },
        }
    }
    let mut chain: Vec<String> = Vec::new();
    let mut index = newest_first.len();
    while index > 0
        invariant
            index <= newest_first@.len(),
            chain.deep_view() == newest_first.deep_view().reverse().take(
                newest_first@.len() - index,
            ),
        decreases index,
    {
        index -= 1;
        chain.push(newest_first[index].clone());
        assert(newest_first.deep_view().reverse().take(newest_first@.len() - index)
            =~= newest_first.deep_view().reverse().take(newest_first@.len() - index - 1).push(
            newest_first.deep_view()[index as int],
        ));
    }
    assert(newest_first.deep_view().reverse().take(newest_first@.len() as int)
        =~= newest_first.deep_view().reverse());
    chain
}


/// The knobs of one generation run that the board itself does not carry.
#[derive(Clone, Debug)]
pub struct RunOptions {
    /// Conditioning executable and directory, when same-run conditioning is on.
    pub conditioner: Option<(String, String)>,
    /// How many earlier images of the card's chain travel as reference.
    pub lineage_refs: usize,
    /// This take's index among `takes` parallel takes of the same request.
    pub take: usize,
    pub takes: usize,
}

/// An earlier image of the card's own chain, with the prompt of the step
/// that produced it.
#[derive(Clone, Debug)]
pub struct LineageImage {
    pub path: String,
    pub prompt: String,
}

/// The chains of the nodes a combined request merges, in request order,
/// skipping ids that name no node.
pub open spec fn merged_chains(nodes: Seq<PromptNode>, ids: Seq<Seq<char>>) -> Seq<Seq<Seq<char>>>
    decreases ids.len(),
{
    if ids.len() == 0 {
        Seq::empty()
    } else {
        let rest = merged_chains(nodes, ids.drop_last());
        if find_index(nodes, ids.last()) is Some {
            rest.push(prompt_chain_spec(nodes, Some(ids.last())))
        } else {
            rest
        }
    }
}

pub const CONTINUES_HEAD: &'static str = "This request continues earlier work on an image. The prompts so far, oldest first:\n";

pub const MERGED_HEAD: &'static str = "Image ";

pub const MERGED_MIDDLE: &'static str = " below comes from a separate chain of work on the same board. Its prompts so far, oldest first:\n";

pub const CONTINUE_FROM_HEAD: &'static str = "The current image to continue from is saved at:\n";

pub const CONTINUE_FROM_TAIL: &'static str = "\nView it first. The request below applies to this image: keep everything it does not ask to change.";

pub const COMBINE_HEAD: &'static str = "The images to combine are saved at, image 1 first:\n";

pub const COMBINE_TAIL: &'static str = "\nView them all first. The request below applies to these images together: carry over the identities, styles, and details it names from each one.";

pub const LINEAGE_HEAD: &'static str = "Earlier images from this same chain, nearest step first. They show the same subject and world before the current image was cropped, reframed, or changed:\n";

pub const LINEAGE_TAIL: &'static str = "\nView them too. Use them only to keep identity, anatomy, proportions, wardrobe, and style consistent when the image being continued does not show those details. Do not copy their framing and do not treat them as images to edit.";

pub const LINEAGE_STEP: &'static str = " — produced by the earlier step: ";

pub const ATTACHMENTS_HEAD: &'static str = "The user attached reference image file(s). View them before generating:\n";

pub const TAKES_MIDDLE: &'static str = " independent takes of this entire request are generated in parallel; this is take ";

pub const TAKES_TAIL: &'static str = ". Give this take its own distinct interpretation while still producing every final deliverable implied by the request.";

pub open spec fn continues_section(ancestors: Seq<Seq<char>>) -> Seq<char> {
    CONTINUES_HEAD@ + numbered_spec(ancestors)
}

pub open spec fn merged_section(index: int, chain: Seq<Seq<char>>) -> Seq<char> {
    MERGED_HEAD@ + decimal((index + 2) as nat) + MERGED_MIDDLE@ + numbered_spec(chain)
}

pub open spec fn source_section(sources: Seq<Seq<char>>, combined: bool) -> Seq<char> {
    if combined {
        COMBINE_HEAD@ + bullet_paths_spec(sources) + COMBINE_TAIL@
    } else {
        CONTINUE_FROM_HEAD@ + bullet_paths_spec(sources) + CONTINUE_FROM_TAIL@
    }
}

pub open spec fn lineage_line(image: LineageImage) -> Seq<char> {
    "- "@ + image.path@ + LINEAGE_STEP@ + excerpt_spec(image.prompt@, 160)
}

/// The reference section for the earlier images of the chain, at most
/// `limit` of them, nearest first; none when there is nothing to show.
pub open spec fn lineage_section_spec(lineage: Seq<LineageImage>, limit: nat) -> Option<Seq<char>> {
    let shown = if lineage.len() <= limit {
        lineage
    } else {
        lineage.take(limit as int)
    };
    if limit == 0 || shown.len() == 0 {
        None
    } else {
        Some(
            LINEAGE_HEAD@ + join(shown.map_values(|image: LineageImage| lineage_line(image)), "\n"@)
                + LINEAGE_TAIL@,
        )
    }
}

/// The earlier-chain reference section shows exactly the first
/// `min(limit, lineage.len())` images, nearest first, one line each; none
/// past the limit. It is absent when the limit is zero or there is nothing
/// to show.
pub proof fn lemma_lineage_section_limits(lineage: Seq<LineageImage>, limit: nat)
    ensures
        (limit == 0 || lineage.len() == 0) ==> lineage_section_spec(lineage, limit) is None,
        (limit > 0 && lineage.len() > 0) ==> ({
            let count = if lineage.len() < limit { lineage.len() } else { limit };
            lineage_section_spec(lineage, limit) == Some(
                LINEAGE_HEAD@ + join(
                    Seq::new(count, |i: int| lineage_line(lineage[i])),
                    "\n"@,
                ) + LINEAGE_TAIL@,
            )
        }),
{
    let count = if lineage.len() < limit { lineage.len() } else { limit };
    let shown = if lineage.len() <= limit { lineage } else { lineage.take(limit as int) };
    assert(shown.map_values(|image: LineageImage| lineage_line(image)) =~= Seq::new(
        count,
        |i: int| lineage_line(lineage[i]),
    ));
}

/// A card's status reads differently for each status in a conversation:
/// only a finished card reads "finished", and only a running one reads
/// "still generating".
pub proof fn lemma_status_phrases_distinct(a: NodeStatus, b: NodeStatus)
    ensures
        status_phrase(a) == status_phrase(b) ==> a == b,
        status_phrase(a) == "finished"@ <==> a == NodeStatus::Done,
        status_phrase(a) == "still generating"@ <==> a == NodeStatus::Running,
        status_phrase(a) == "failed"@ <==> a == NodeStatus::Error,
        status_phrase(a) == "stopped by the user"@ <==> a == NodeStatus::Stopped,
{
    reveal_strlit("still generating");
    reveal_strlit("finished");
    reveal_strlit("failed");
    reveal_strlit("stopped by the user");
    assert(("still generating"@).len() == 16);
    assert(("finished"@).len() == 8);
    assert(("failed"@).len() == 6);
    assert(("stopped by the user"@).len() == 19);
}

/// The request's closing notes on aspect ratio and parallel takes.
pub open spec fn extras_spec(aspect: Seq<char>, take: nat, takes: nat) -> Seq<Seq<char>> {
    (if aspect != "auto"@ {
        seq!["Aspect ratio: "@ + aspect + "."@]
    } else {
        Seq::empty()
    }) + (if takes > 1 {
        seq![decimal(takes) + TAKES_MIDDLE@ + decimal(take + 1) + TAKES_TAIL@]
    } else {
        Seq::empty()
    })
}

pub open spec fn option_section(section: Option<Seq<char>>) -> Seq<Seq<char>> {
    match section {
        Some(text) => seq![text],
        None => Seq::empty(),
    }
}

/// The history sections: the standing contract, then the chain history
/// when there is one, then one section per merged chain.
pub open spec fn history_sections(nodes: Seq<PromptNode>, node: PromptNode) -> Seq<Seq<char>> {
    let ancestors = prompt_chain_spec(nodes, opt_view(node.parent_id));
    let merged = merged_chains(nodes, node.merged_from.deep_view());
    seq![PREAMBLE@] + option_section(
        if ancestors.len() > 0 {
            Some(continues_section(ancestors))
        } else {
            None
        },
    ) + Seq::new(merged.len(), |i: int| merged_section(i, merged[i]))
}

/// The image sections: what to continue from or combine, earlier chain
/// images, and attachments.
pub open spec fn image_sections(
    sources: Seq<Seq<char>>,
    combined: bool,
    lineage: Seq<LineageImage>,
    lineage_refs: nat,
    attachments: Seq<Seq<char>>,
) -> Seq<Seq<char>> {
    option_section(
        if sources.len() > 0 {
            Some(source_section(sources, combined))
        } else {
            None
        },
    ) + option_section(
        if sources.len() > 0 {
            lineage_section_spec(lineage, lineage_refs)
        } else {
            None
        },
    ) + option_section(
        if attachments.len() > 0 {
            Some(ATTACHMENTS_HEAD@ + bullet_paths_spec(attachments))
        } else {
            None
        },
    )
}

/// The closing sections: conditioning rules, the request, and the notes.
pub open spec fn request_sections(prompt: Seq<char>, aspect: Seq<char>, options: RunOptions) -> Seq<
    Seq<char>,
> {
    let extras = extras_spec(aspect, options.take as nat, options.takes as nat);
    option_section(
        match options.conditioner {
            Some((executable, directory)) => Some(
                same_run_section_spec(
                    conditioning_command_spec(executable@, join_path(directory@, "step-N.png"@)),
                ),
            ),
            None => None,
        },
    ) + seq!["Request: "@ + prompt] + option_section(
        if extras.len() > 0 {
            Some(join(extras, " "@))
        } else {
            None
        },
    )
}

/// Every section of a node's generation prompt, in order.
pub open spec fn node_prompt_sections(
    nodes: Seq<PromptNode>,
    node: PromptNode,
    sources: Seq<Seq<char>>,
    lineage: Seq<LineageImage>,
    attachments: Seq<Seq<char>>,
    options: RunOptions,
) -> Seq<Seq<char>> {
    history_sections(nodes, node) + image_sections(
        sources,
        merged_chains(nodes, node.merged_from.deep_view()).len() > 0,
        lineage,
        options.lineage_refs as nat,
        attachments,
    ) + request_sections(node.prompt@, node.aspect@, options)
}

/// The chains merged into `node`, as `merged_chains` defines them.
fn merged_prompt_chains(nodes: &Vec<PromptNode>, ids: &Vec<String>) -> (chains: Vec<Vec<String>>)
    ensures
        chains@.len() == merged_chains(nodes@, ids.deep_view()).len(),
        forall|i: int|
            0 <= i < chains@.len() ==> #[trigger] chains@[i].deep_view() == merged_chains(
                nodes@,
                ids.deep_view(),
            )[i],
{
    let ghost view = ids.deep_view();
    let mut chains: Vec<Vec<String>> = Vec::new();
    let mut index: usize = 0;
    while index < ids.len()
        invariant
            index <= ids@.len(),
            view == ids.deep_view(),
            view.len() == ids@.len(),
            chains@.len() == merged_chains(nodes@, view.take(index as int)).len(),
            forall|i: int|
                0 <= i < chains@.len() ==> #[trigger] chains@[i].deep_view() == merged_chains(
                    nodes@,
                    view.take(index as int),
                )[i],
        decreases ids@.len() - index,
    {
        assert(view.take(index + 1).drop_last() =~= view.take(index as int));
        assert(view[index as int] == ids@[index as int]@);
        if find_node(nodes, ids[index].as_str()).is_some() {
            let chain = prompt_chain(nodes, &Some(ids[index].clone()));
            chains.push(chain);
        }
        index += 1;
    }
    assert(view.take(ids@.len() as int) =~= view);
    chains
}

/// The lineage reference section, when it has anything to show.
pub fn lineage_reference_section(lineage: &Vec<LineageImage>, limit: usize) -> (section: Option<
    String,
>)
    ensures
        opt_view(section) == lineage_section_spec(lineage@, limit as nat),
{
    let shown = if lineage.len() <= limit {
        lineage.len()
    } else {
        limit
    };
    if limit == 0 || shown == 0 {
        return None;
    }
    let mut lines: Vec<String> = Vec::new();
    let mut index: usize = 0;
    while index < shown
        invariant
            index <= shown <= lineage@.len(),
            lines.deep_view() == lineage@.take(index as int).map_values(
                |image: LineageImage| lineage_line(image),
            ),
        decreases shown - index,
    {
        let mut line = owned("- ");
        push_str(&mut line, lineage[index].path.as_str());
        push_str(&mut line, LINEAGE_STEP);
        let cut = excerpt(lineage[index].prompt.as_str(), 160);
        push_str(&mut line, cut.as_str());
        push_string(&mut lines, line);
        assert(lineage@.take(index + 1).map_values(|image: LineageImage| lineage_line(image))
            =~= lineage@.take(index as int).map_values(
            |image: LineageImage| lineage_line(image),
        ).push(lineage_line(lineage@[index as int])));
        index += 1;
    }
    let ghost taken = if lineage@.len() <= limit {
        lineage@
    } else {
        lineage@.take(limit as int)
    };
    assert(lineage@.take(shown as int) =~= taken);
    let mut section = owned(LINEAGE_HEAD);
    let joined = join_strings(&lines, "\n");
    push_str(&mut section, joined.as_str());
    push_str(&mut section, LINEAGE_TAIL);
    Some(section)
}


/// Appends every string of `tail` to `list`.
fn append_all(list: &mut Vec<String>, tail: Vec<String>)
    ensures
        final(list).deep_view() == old(list).deep_view() + tail.deep_view(),
{
    let ghost start = list.deep_view();
    let mut index: usize = 0;
    while index < tail.len()
        invariant
            index <= tail@.len(),
            list.deep_view() == start + tail.deep_view().take(index as int),
        decreases tail@.len() - index,
    {
        push_string(list, tail[index].clone());
        assert(tail.deep_view().take(index + 1) =~= tail.deep_view().take(index as int).push(
            tail@[index as int]@,
        ));
        assert(list.deep_view() =~= start + tail.deep_view().take(index + 1));
        index += 1;
    }
    assert(tail.deep_view().take(tail@.len() as int) =~= tail.deep_view());
}

fn build_history_sections(nodes: &Vec<PromptNode>, node: &PromptNode) -> (sections: Vec<String>)
    ensures
        sections.deep_view() == history_sections(nodes@, *node),
{
    let ghost ancestors_spec = prompt_chain_spec(nodes@, opt_view(node.parent_id));
    let ghost merged_spec = merged_chains(nodes@, node.merged_from.deep_view());
    let mut sections: Vec<String> = Vec::new();
    push_string(&mut sections, owned(PREAMBLE));
    let ancestors = prompt_chain(nodes, &node.parent_id);
    if ancestors.len() > 0 {
        let mut section = owned(CONTINUES_HEAD);
        let list = numbered(&ancestors);
        push_str(&mut section, list.as_str());
        push_string(&mut sections, section);
    }
    let ghost head = sections.deep_view();
    assert(head =~= seq![PREAMBLE@] + option_section(
        if ancestors_spec.len() > 0 {
            Some(continues_section(ancestors_spec))
        } else {
            None
        },
    ));
    let merged = merged_prompt_chains(nodes, &node.merged_from);
    let mut index: usize = 0;
    assert(sections.deep_view() =~= head + Seq::new(0, |i: int| merged_section(i, merged_spec[i])));
    while index < merged.len()
        invariant
            index <= merged@.len(),
            merged@.len() == merged_spec.len(),
            merged_spec == merged_chains(nodes@, node.merged_from.deep_view()),
            forall|i: int| 0 <= i < merged@.len() ==> #[trigger] merged@[i].deep_view() == merged_spec[i],
            sections.deep_view() == head + Seq::new(
                index as nat,
                |i: int| merged_section(i, merged_spec[i]),
            ),
        decreases merged@.len() - index,
    {
        let mut section = owned(MERGED_HEAD);
        let number = decimal_string(index as u128 + 2);
        push_str(&mut section, number.as_str());
        push_str(&mut section, MERGED_MIDDLE);
        let list = numbered(&merged[index]);
        push_str(&mut section, list.as_str());
        push_string(&mut sections, section);
        assert(sections.deep_view() =~= head + Seq::new(
            (index + 1) as nat,
            |i: int| merged_section(i, merged_spec[i]),
        ));
        index += 1;
    }
    sections
}

fn build_image_sections(
    source_paths: &Vec<String>,
    combined: bool,
    lineage: &Vec<LineageImage>,
    lineage_refs: usize,
    attachments: &Vec<String>,
) -> (sections: Vec<String>)
    ensures
        sections.deep_view() == image_sections(
            source_paths.deep_view(),
            combined,
            lineage@,
            lineage_refs as nat,
            attachments.deep_view(),
        ),
{
    let mut sections: Vec<String> = Vec::new();
    if source_paths.len() > 0 {
        let list = bullet_paths(source_paths);
        let mut section = if combined {
            owned(COMBINE_HEAD)
        } else {
            owned(CONTINUE_FROM_HEAD)
        };
        push_str(&mut section, list.as_str());
        if combined {
            push_str(&mut section, COMBINE_TAIL);
        } else {
            push_str(&mut section, CONTINUE_FROM_TAIL);
        }
        push_string(&mut sections, section);
    }
    let ghost after_sources = sections.deep_view();
    if source_paths.len() > 0 {
        if let Some(section) = lineage_reference_section(lineage, lineage_refs) {
            push_string(&mut sections, section);
        }
    }
    let ghost after_lineage = sections.deep_view();
    assert(after_lineage =~= after_sources + option_section(
        if source_paths.deep_view().len() > 0 {
            lineage_section_spec(lineage@, lineage_refs as nat)
        } else {
            None
        },
    ));
    if attachments.len() > 0 {
        let mut section = owned(ATTACHMENTS_HEAD);
        let list = bullet_paths(attachments);
        push_str(&mut section, list.as_str());
        push_string(&mut sections, section);
    }
    assert(sections.deep_view() =~= image_sections(
        source_paths.deep_view(),
        combined,
        lineage@,
        lineage_refs as nat,
        attachments.deep_view(),
    ));
    sections
}

fn build_request_sections(prompt: &str, aspect: &str, options: &RunOptions) -> (sections: Vec<
    String,
>)
    requires
        options.take < usize::MAX,
    ensures
        sections.deep_view() == request_sections(prompt@, aspect@, *options),
{
    let mut sections: Vec<String> = Vec::new();
    match &options.conditioner {
        Some((executable, directory)) => {
            let section = same_run_conditioning_section(executable.as_str(), directory.as_str());
            push_string(&mut sections, section);
        },
        None => {},
    }
    let mut request = owned("Request: ");
    push_str(&mut request, prompt);
    push_string(&mut sections, request);
    let mut extras: Vec<String> = Vec::new();
    if !same_text(aspect, "auto") {
        let mut note = owned("Aspect ratio: ");
        push_str(&mut note, aspect);
        push_str(&mut note, ".");
        push_string(&mut extras, note);
    }
    if options.takes > 1 {
        let mut note = decimal_string(options.takes as u128);
        push_str(&mut note, TAKES_MIDDLE);
        let number = decimal_string(options.take as u128 + 1);
        push_str(&mut note, number.as_str());
        push_str(&mut note, TAKES_TAIL);
        push_string(&mut extras, note);
    }
    assert(extras.deep_view() =~= extras_spec(aspect@, options.take as nat, options.takes as nat));
    if extras.len() > 0 {
        let joined = join_strings(&extras, " ");
        push_string(&mut sections, joined);
    }
    assert(sections.deep_view() =~= request_sections(prompt@, aspect@, *options));
    sections
}

/// Assembles a node's generation prompt: the standing contract, the chain
/// history, merged chains, the images to continue from or combine, earlier
/// chain images, attachments, same-run conditioning rules, the request, and
/// closing notes, separated by blank lines.
pub fn build_node_prompt(
    nodes: &Vec<PromptNode>,
    node: &PromptNode,
    source_paths: &Vec<String>,
    lineage: &Vec<LineageImage>,
    attachments: &Vec<String>,
    options: &RunOptions,
) -> (text: String)
    requires
        options.take < usize::MAX,
    ensures
        text@ == join(
            node_prompt_sections(
                nodes@,
                *node,
                source_paths.deep_view(),
                lineage@,
                attachments.deep_view(),
                *options,
            ),
            "\n\n"@,
        ),
{
    let merged_count = merged_prompt_chains(nodes, &node.merged_from).len();
    let mut sections = build_history_sections(nodes, node);
    let images = build_image_sections(
        source_paths,
        merged_count > 0,
        lineage,
        options.lineage_refs,
        attachments,
    );
    append_all(&mut sections, images);
    let closing = build_request_sections(node.prompt.as_str(), node.aspect.as_str(), options);
    append_all(&mut sections, closing);
    join_strings(&sections, "\n\n")
}

/// The standing rules of a conversation about one card.
pub const CHAT_PREAMBLE: &'static str = r#"You are discussing one card on the user's image-generation board. This is a conversation, not a generation run.

Hard rules:
- Never call the image generation tool. Do not create, edit, copy, move, or delete any file.
- You may view the image files listed below, and you should before saying anything about what they show.
- Reply in plain text: no JSON, no markdown headings, no preamble such as "Certainly".
- Be concrete and brief. For ideas, give a short numbered list of distinct one-line options. For a result that came out wrong, name the likely cause and the prompt change that fixes it. When the user asks for a prompt, write the prompt itself, ready to paste."#;

pub const CHAT_CONTINUES_HEAD: &'static str = "This card continues earlier work. The prompts leading to it, oldest first:\n";

/// How a card's status reads in a conversation.
pub open spec fn status_phrase(status: NodeStatus) -> Seq<char> {
    match status {
        NodeStatus::Running => "still generating"@,
        NodeStatus::Done => "finished"@,
        NodeStatus::Error => "failed"@,
        NodeStatus::Stopped => "stopped by the user"@,
    }
}

/// The facts section's lines: status, a non-default aspect, the run's
/// summary, and a recorded failure, each when there is one.
pub open spec fn chat_facts(node: BoardNode) -> Seq<Seq<char>> {
    seq!["Status: "@ + status_phrase(node.status)] + (if node.aspect@ != "auto"@ {
        seq!["Aspect ratio: "@ + node.aspect@]
    } else {
        Seq::empty()
    }) + (if node.text@.len() > 0 {
        seq!["Codex's summary of the run: "@ + node.text@]
    } else {
        Seq::empty()
    }) + match node.error {
        Some(error) => if error@.len() > 0 {
            seq!["Recorded failure: "@ + error@]
        } else {
            Seq::empty()
        },
        None => Seq::empty(),
    }
}

/// The last `turns` messages of a conversation, or all of them.
pub open spec fn recent_turns(transcript: Seq<ChatMessage>, turns: nat) -> Seq<ChatMessage> {
    if transcript.len() <= turns {
        transcript
    } else {
        transcript.skip(transcript.len() - turns)
    }
}

pub open spec fn speaker(role: ChatRole) -> Seq<char> {
    match role {
        ChatRole::User => "User"@,
        ChatRole::Agent => "You"@,
        ChatRole::Error => "System"@,
    }
}

pub open spec fn turn_line(message: ChatMessage) -> Seq<char> {
    speaker(message.role) + ": "@ + message.text@
}

/// A labelled list of image paths, when there is any.
pub open spec fn paths_section(label: Seq<char>, paths: Seq<Seq<char>>) -> Seq<Seq<char>> {
    if paths.len() > 0 {
        seq![label + ":\n"@ + bullet_paths_spec(paths)]
    } else {
        Seq::empty()
    }
}

/// Every section of a conversation prompt about `node`, in order.
pub open spec fn chat_sections(
    nodes: Seq<PromptNode>,
    title: Seq<char>,
    node: BoardNode,
    produced: Seq<Seq<char>>,
    sources: Seq<Seq<char>>,
    attached: Seq<Seq<char>>,
    transcript: Seq<ChatMessage>,
    turns: nat,
) -> Seq<Seq<char>> {
    let ancestors = prompt_chain_spec(nodes, opt_view(node.parent_id));
    seq![CHAT_PREAMBLE@, "Board: "@ + title] + option_section(
        if ancestors.len() > 0 {
            Some(CHAT_CONTINUES_HEAD@ + numbered_spec(ancestors))
        } else {
            None
        },
    ) + seq!["This card's request: "@ + node.prompt@, join(chat_facts(node), "\n"@)]
        + paths_section("The images this card produced"@, produced) + paths_section(
        "The images it was generated from"@,
        sources,
    ) + paths_section("Reference images the user attached"@, attached) + seq![
        "Conversation so far:\n"@ + join(
            recent_turns(transcript, turns).map_values(|message: ChatMessage| turn_line(message)),
            "\n\n"@,
        ),
        "Reply to the last user message."@,
    ]
}

fn status_text(status: NodeStatus) -> (text: String)
    ensures
        text@ == status_phrase(status),
{
    match status {
        NodeStatus::Running => owned("still generating"),
        NodeStatus::Done => owned("finished"),
        NodeStatus::Error => owned("failed"),
        NodeStatus::Stopped => owned("stopped by the user"),
    }
}

fn chat_facts_text(node: &BoardNode) -> (facts: String)
    ensures
        facts@ == join(chat_facts(*node), "\n"@),
{
    let mut lines: Vec<String> = Vec::new();
    let mut status = owned("Status: ");
    let phrase = status_text(node.status);
    push_str(&mut status, phrase.as_str());
    push_string(&mut lines, status);
    if !same_text(node.aspect.as_str(), "auto") {
        let mut line = owned("Aspect ratio: ");
        push_str(&mut line, node.aspect.as_str());
        push_string(&mut lines, line);
    }
    if chars_of(node.text.as_str()).len() > 0 {
        let mut line = owned("Codex's summary of the run: ");
        push_str(&mut line, node.text.as_str());
        push_string(&mut lines, line);
    }
    match &node.error {
        Some(error) => {
            if chars_of(error.as_str()).len() > 0 {
                let mut line = owned("Recorded failure: ");
                push_str(&mut line, error.as_str());
                push_string(&mut lines, line);
            }
        },
        None => {},
    }
    assert(lines.deep_view() =~= chat_facts(*node));
    join_strings(&lines, "\n")
}

fn push_paths_section(sections: &mut Vec<String>, label: &str, paths: &Vec<String>)
    ensures
        final(sections).deep_view() == old(sections).deep_view() + paths_section(
            label@,
            paths.deep_view(),
        ),
{
    if paths.len() > 0 {
        let mut section = owned(label);
        push_str(&mut section, ":\n");
        let list = bullet_paths(paths);
        push_str(&mut section, list.as_str());
        push_string(sections, section);
    }
    assert(final(sections).deep_view() =~= old(sections).deep_view() + paths_section(
        label@,
        paths.deep_view(),
    ));
}

fn transcript_text(transcript: &Vec<ChatMessage>, turns: usize) -> (text: String)
    ensures
        text@ == join(
            recent_turns(transcript@, turns as nat).map_values(
                |message: ChatMessage| turn_line(message),
            ),
            "\n\n"@,
        ),
{
    let start = if transcript.len() <= turns {
        0
    } else {
        transcript.len() - turns
    };
    let ghost recent = recent_turns(transcript@, turns as nat);
    assert(recent =~= transcript@.skip(start as int));
    let mut lines: Vec<String> = Vec::new();
    let mut index = start;
    while index < transcript.len()
        invariant
            start <= index <= transcript@.len(),
            recent == transcript@.skip(start as int),
            lines.deep_view() == recent.take(index - start).map_values(
                |message: ChatMessage| turn_line(message),
            ),
        decreases transcript@.len() - index,
    {
        let mut line = match transcript[index].role {
            ChatRole::User => owned("User"),
            ChatRole::Agent => owned("You"),
            ChatRole::Error => owned("System"),
        };
        push_str(&mut line, ": ");
        push_str(&mut line, transcript[index].text.as_str());
        push_string(&mut lines, line);
        assert(recent.take(index + 1 - start).map_values(|message: ChatMessage| turn_line(message))
            =~= recent.take(index - start).map_values(
            |message: ChatMessage| turn_line(message),
        ).push(turn_line(transcript@[index as int])));
        index += 1;
    }
    assert(recent.take(transcript@.len() - start) =~= recent);
    join_strings(&lines, "\n\n")
}

/// The conversation prompt about one card: the standing rules, the board's
/// title, the card's history and request, facts about its run, the images
/// it produced, was made from, and was given, the last `turns` messages of
/// the conversation, and the closing instruction, separated by blank lines.
/// `produced`, `sources` and `attached` are the paths of those images that
/// exist on disk.
pub fn build_chat_prompt(
    nodes: &Vec<PromptNode>,
    title: &str,
    node: &BoardNode,
    produced: &Vec<String>,
    sources: &Vec<String>,
    attached: &Vec<String>,
    transcript: &Vec<ChatMessage>,
    turns: usize,
) -> (text: String)
    ensures
        text@ == join(
            chat_sections(
                nodes@,
                title@,
                *node,
                produced.deep_view(),
                sources.deep_view(),
                attached.deep_view(),
                transcript@,
                turns as nat,
            ),
            "\n\n"@,
        ),
{
    let ghost ancestors_spec = prompt_chain_spec(nodes@, opt_view(node.parent_id));
    let mut sections: Vec<String> = Vec::new();
    push_string(&mut sections, owned(CHAT_PREAMBLE));
    let mut board = owned("Board: ");
    push_str(&mut board, title);
    push_string(&mut sections, board);
    let ancestors = prompt_chain(nodes, &node.parent_id);
    if ancestors.len() > 0 {
        let mut section = owned(CHAT_CONTINUES_HEAD);
        let list = numbered(&ancestors);
        push_str(&mut section, list.as_str());
        push_string(&mut sections, section);
    }
    let mut request = owned("This card's request: ");
    push_str(&mut request, node.prompt.as_str());
    push_string(&mut sections, request);
    push_string(&mut sections, chat_facts_text(node));
    let ghost head = sections.deep_view();
    push_paths_section(&mut sections, "The images this card produced", produced);
    push_paths_section(&mut sections, "The images it was generated from", sources);
    push_paths_section(&mut sections, "Reference images the user attached", attached);
    let mut conversation = owned("Conversation so far:\n");
    let lines = transcript_text(transcript, turns);
    push_str(&mut conversation, lines.as_str());
    push_string(&mut sections, conversation);
    push_string(&mut sections, owned("Reply to the last user message."));
    assert(sections.deep_view() =~= chat_sections(
        nodes@,
        title@,
        *node,
        produced.deep_view(),
        sources.deep_view(),
        attached.deep_view(),
        transcript@,
        turns as nat,
    ));
    join_strings(&sections, "\n\n")
}

} // verus!
