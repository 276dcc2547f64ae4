use codex_image::boards::BoardNode;
use codex_image::model::{ChatMessage, ChatRole, NodeStatus};
use codex_image::prompt::{
    build_chat_prompt, build_node_prompt, prompt_chain, LineageImage, PromptNode, RunOptions,
};

fn node(id: &str, parent_id: Option<&str>, merged_from: &[&str]) -> PromptNode {
    PromptNode {
        id: id.into(),
        parent_id: parent_id.map(str::to_owned),
        prompt: format!("prompt {id}"),
        aspect: "auto".into(),
        merged_from: merged_from.iter().map(|id| (*id).to_owned()).collect(),
    }
}

fn options(lineage_refs: usize) -> RunOptions {
    RunOptions {
        conditioner: None,
        lineage_refs,
        take: 0,
        takes: 1,
    }
}

#[test]
fn combined_images_carry_every_chain_history() {
    let nodes = vec![
        node("hero", None, &[]),
        node("hero-armor", Some("hero"), &[]),
        node("villain", None, &[]),
        node("crossover", Some("hero-armor"), &["villain", "gone"]),
    ];
    let sources = vec![
        "/img/hero-armor.png".to_string(),
        "/img/villain.png".to_string(),
    ];

    let prompt = build_node_prompt(&nodes, &nodes[3], &sources, &Vec::new(), &Vec::new(), &options(0));

    assert!(
        prompt.contains(
            "The prompts so far, oldest first:\n1. prompt hero\n2. prompt hero-armor"
        )
    );
    assert!(prompt.contains("Image 2 below comes from a separate chain of work on the same board. Its prompts so far, oldest first:\n1. prompt villain"));
    assert!(!prompt.contains("Image 3 below"));
    assert!(prompt.contains("The images to combine are saved at, image 1 first:\n- /img/hero-armor.png\n- /img/villain.png"));

    let plain = build_node_prompt(
        &nodes,
        &nodes[1],
        &sources[..1].to_vec(),
        &Vec::new(),
        &Vec::new(),
        &options(0),
    );
    assert!(plain.contains("The current image to continue from is saved at:"));
    assert!(!plain.contains("separate chain"));
}

#[test]
fn chain_references_carry_earlier_images_but_not_the_source() {
    let nodes = vec![
        node("full", None, &[]),
        node("face", Some("full"), &[]),
        node("child", Some("face"), &[]),
    ];
    let sources = vec!["/data/images/board/face.png".to_string()];
    let lineage = vec![LineageImage {
        path: "/data/images/board/full.png".into(),
        prompt: "prompt full".into(),
    }];

    let prompt = build_node_prompt(&nodes, &nodes[2], &sources, &lineage, &Vec::new(), &options(3));

    assert!(prompt.contains("Earlier images from this same chain"));
    assert!(prompt.contains("full.png — produced by the earlier step: prompt full"));
    assert_eq!(prompt.matches("face.png").count(), 1);

    let off = build_node_prompt(&nodes, &nodes[2], &sources, &lineage, &Vec::new(), &options(0));
    assert!(!off.contains("Earlier images from this same chain"));
}

#[test]
fn prompt_chains_list_ancestors_oldest_first() {
    let nodes = vec![
        node("a", None, &[]),
        node("b", Some("a"), &[]),
        node("c", Some("b"), &[]),
    ];
    assert_eq!(
        prompt_chain(&nodes, &Some("c".to_string())),
        vec!["prompt a", "prompt b", "prompt c"]
    );
    assert!(prompt_chain(&nodes, &None).is_empty());
}

fn card(prompt: &str) -> BoardNode {
    BoardNode {
        id: "c".into(),
        parent_id: Some("b".into()),
        prompt: prompt.into(),
        aspect: "16:9".into(),
        source_images: Vec::new(),
        attachments: Vec::new(),
        images: Vec::new(),
        image_labels: Vec::new(),
        attempts: Vec::new(),
        text: "A lake at dusk.".into(),
        status: NodeStatus::Error,
        error: Some("timed out".into()),
        stop_reason: None,
        x: None,
        y: None,
        created_at: 0,
        run_started_at: None,
        finished_at: None,
        usage: None,
    }
}

fn said(role: ChatRole, text: &str) -> ChatMessage {
    ChatMessage { role, text: text.into(), at: 0 }
}

#[test]
fn chat_prompts_describe_the_card_and_the_recent_conversation() {
    let nodes = vec![node("a", None, &[]), node("b", Some("a"), &[]), node("c", Some("b"), &[])];
    let transcript = vec![
        said(ChatRole::User, "first"),
        said(ChatRole::Agent, "second"),
        said(ChatRole::Error, "third"),
        said(ChatRole::User, "why is it dark?"),
    ];
    let prompt = build_chat_prompt(
        &nodes,
        "Lakes",
        &card("prompt c"),
        &vec!["/img/c.png".to_string()],
        &Vec::new(),
        &vec!["/img/ref.png".to_string()],
        &transcript,
        3,
    );
    assert!(prompt.starts_with("You are discussing one card on the user's image-generation board."));
    assert!(prompt.contains("\n\nBoard: Lakes\n\n"));
    assert!(prompt.contains(
        "This card continues earlier work. The prompts leading to it, oldest first:\n1. prompt a\n2. prompt b\n\nThis card's request: prompt c"
    ));
    assert!(prompt.contains(
        "Status: failed\nAspect ratio: 16:9\nCodex's summary of the run: A lake at dusk.\nRecorded failure: timed out"
    ));
    assert!(prompt.contains("The images this card produced:\n- /img/c.png"));
    assert!(!prompt.contains("The images it was generated from"));
    assert!(prompt.contains("Reference images the user attached:\n- /img/ref.png"));
    assert!(prompt.ends_with(
        "Conversation so far:\nYou: second\n\nSystem: third\n\nUser: why is it dark?\n\nReply to the last user message."
    ));
    assert!(!prompt.contains("User: first"));

    let mut plain = card("prompt c");
    plain.parent_id = None;
    plain.aspect = "auto".into();
    plain.text = String::new();
    plain.error = Some(String::new());
    plain.status = NodeStatus::Running;
    let quiet = build_chat_prompt(&nodes, "Lakes", &plain, &Vec::new(), &Vec::new(), &Vec::new(), &Vec::new(), 3);
    assert!(quiet.contains("This card's request: prompt c\n\nStatus: still generating\n\nConversation so far:\n\n\nReply"));
    assert!(!quiet.contains("continues earlier work"));
}

fn board_card(id: &str) -> BoardNode {
    let mut card = card(&format!("prompt {id}"));
    card.id = id.into();
    card.parent_id = None;
    card.aspect = "auto".into();
    card.text = String::new();
    card.error = None;
    card.status = NodeStatus::Done;
    card
}

#[test]
fn chat_prompt_carries_the_transcript_and_bans_generating() {
    let card = board_card("card");
    let chat = vec![
        ChatMessage { role: ChatRole::User, text: "why is the body wrong".into(), at: 0 },
        ChatMessage { role: ChatRole::Agent, text: "the crop hides it".into(), at: 1 },
    ];
    let nodes = vec![node("card", None, &[])];

    let prompt = build_chat_prompt(&nodes, "Board", &card, &Vec::new(), &Vec::new(), &Vec::new(), &chat, chat.len());

    assert!(prompt.contains("Never call the image generation tool"));
    assert!(prompt.contains("User: why is the body wrong"));
    assert!(prompt.contains("You: the crop hides it"));
    assert!(prompt.ends_with("Reply to the last user message."));
}
