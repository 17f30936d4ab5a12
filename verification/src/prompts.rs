//! Prompt construction: every prompt the service sends is assembled here,
//! each with an exact contract over its characters.

use vstd::prelude::*;

verus! {

/// The request for a per-file purpose explanation.
pub fn purpose_prompt(content: &str) -> (r: String)
    ensures
        r@ == "Analyze this code file and provide a brief explanation of its main purpose and contents. Focus on explaining what the file does in the context of the project. Keep the explanation concise but informative. CRITICAL: Provide ONLY a direct, factual answer. Do NOT include any thinking process, internal monologue, reasoning steps, or meta-commentary. Do NOT start with '<think>', '<reasoning>', or any similar markers. Do NOT explain your analysis process. Simply state what the file is and what it does. Example format: 'This is a configuration file that...' or 'This file implements...'\n\nFile content:\n"@
            + content@,
{
    let mut r = String::new();
    r.append(
        "Analyze this code file and provide a brief explanation of its main purpose and contents. Focus on explaining what the file does in the context of the project. Keep the explanation concise but informative. CRITICAL: Provide ONLY a direct, factual answer. Do NOT include any thinking process, internal monologue, reasoning steps, or meta-commentary. Do NOT start with '<think>', '<reasoning>', or any similar markers. Do NOT explain your analysis process. Simply state what the file is and what it does. Example format: 'This is a configuration file that...' or 'This file implements...'\n\nFile content:\n",
    );
    r.append(content);
    r
}

/// The request for a per-file dependency listing.
pub fn deps_prompt(content: &str) -> (r: String)
    ensures
        r@ == "Analyze this code file and list all its dependencies (imports, requires, etc.). If there are no dependencies, just say 'No dependencies found.' Format each dependency on a new line, starting with a dash (-). For each dependency, include its purpose if it's not obvious from the name. CRITICAL: Provide ONLY a direct, factual answer. Do NOT include any thinking process, internal monologue, reasoning steps, or meta-commentary. Do NOT start with '<think>', '<reasoning>', or any similar markers. Do NOT explain your analysis process. Simply list the dependencies or state 'No dependencies found.' Example format:\n- react: Frontend UI library\n- express: Web server framework\nNo dependencies found\n\nFile content:\n"@
            + content@,
{
    let mut r = String::new();
    r.append(
        "Analyze this code file and list all its dependencies (imports, requires, etc.). If there are no dependencies, just say 'No dependencies found.' Format each dependency on a new line, starting with a dash (-). For each dependency, include its purpose if it's not obvious from the name. CRITICAL: Provide ONLY a direct, factual answer. Do NOT include any thinking process, internal monologue, reasoning steps, or meta-commentary. Do NOT start with '<think>', '<reasoning>', or any similar markers. Do NOT explain your analysis process. Simply list the dependencies or state 'No dependencies found.' Example format:\n- react: Frontend UI library\n- express: Web server framework\nNo dependencies found\n\nFile content:\n",
    );
    r.append(content);
    r
}

/// The structure-stage request: the rendered tree, then the ask for a
/// high-level architecture narrative.
pub fn structure_prompt(structure: &str) -> (r: String)
    ensures
        r@ == "\nYou are an expert technical writer and software architect. Here is the file and folder structure of a software project:\n\n"@
            + structure@
            + "\n\nPlease give a high-level architectural overview of how the folders and files relate to each other. Focus on helping a junior developer understand how this is structured and why. Include a diagram (ASCII or Mermaid if possible) that visually represents the architecture. Be concise, explicit, and do not use meta language, markdown formatting, or explanations - output only the content and diagram.\n"@,
{
    let mut r = String::new();
    r.append(
        "\nYou are an expert technical writer and software architect. Here is the file and folder structure of a software project:\n\n",
    );
    r.append(structure);
    r.append(
        "\n\nPlease give a high-level architectural overview of how the folders and files relate to each other. Focus on helping a junior developer understand how this is structured and why. Include a diagram (ASCII or Mermaid if possible) that visually represents the architecture. Be concise, explicit, and do not use meta language, markdown formatting, or explanations - output only the content and diagram.\n",
    );
    r
}

/// The per-file summary request around one (truncated) file content.
pub fn file_prompt(path: &str, content: &str) -> (r: String)
    ensures
        r@ == "\nHere is the file `"@ + path@ + "` from a software project:\n\n---\n"@ + content@
            + "\n---\n\nSummarize in 1-2 sentences, directly and explicitly, what this file does and how it fits into the project. Do not use meta language, markdown formatting, or explanations - output only the summary.\n"@,
{
    let mut r = String::new();
    r.append("\nHere is the file `");
    r.append(path);
    r.append("` from a software project:\n\n---\n");
    r.append(content);
    r.append(
        "\n---\n\nSummarize in 1-2 sentences, directly and explicitly, what this file does and how it fits into the project. Do not use meta language, markdown formatting, or explanations - output only the summary.\n",
    );
    r
}

/// The final-synthesis request around the assembled summaries.
pub fn final_prompt(all_summaries: &str) -> (r: String)
    ensures
        r@ == "\nYou are an expert technical writer, software architect, and educator. Your job is to generate the best possible documentation for this software project, specifically for junior developers and newcomers.\n\nBelow are the project structure overview and summaries of key files. Please synthesize these into a complete, beginner-friendly documentation that explains the architecture, file relationships, technology stack, developer flow, and learning tips. Use diagrams, Markdown formatting, and a welcoming, educational tone.\n\n"@
            + all_summaries@
            + "\n\nNow, generate the final documentation as described above.\n"@,
{
    let mut r = String::new();
    r.append(
        "\nYou are an expert technical writer, software architect, and educator. Your job is to generate the best possible documentation for this software project, specifically for junior developers and newcomers.\n\nBelow are the project structure overview and summaries of key files. Please synthesize these into a complete, beginner-friendly documentation that explains the architecture, file relationships, technology stack, developer flow, and learning tips. Use diagrams, Markdown formatting, and a welcoming, educational tone.\n\n",
    );
    r.append(all_summaries);
    r.append("\n\nNow, generate the final documentation as described above.\n");
    r
}

/// The chat prompt when a project and a selected file are in context.
pub fn chat_prompt_with_file(
    project_name: &str,
    file_name: &str,
    file_path: &str,
    message: &str,
) -> (r: String)
    ensures
        r@ == "Context: You are an AI assistant helping with the '"@ + project_name@
            + "' project. The user is currently viewing the file '"@ + file_name@
            + "' located at '"@ + file_path@ + "'.\n\nUser question: "@ + message@
            + "\n\nPlease provide a helpful, detailed response about this specific file or the project in general. Focus on explaining the code, architecture, best practices, and any relevant insights. Be direct and factual without any thinking process."@,
{
    let mut r = String::new();
    r.append("Context: You are an AI assistant helping with the '");
    r.append(project_name);
    r.append("' project. The user is currently viewing the file '");
    r.append(file_name);
    r.append("' located at '");
    r.append(file_path);
    r.append("'.\n\nUser question: ");
    r.append(message);
    r.append(
        "\n\nPlease provide a helpful, detailed response about this specific file or the project in general. Focus on explaining the code, architecture, best practices, and any relevant insights. Be direct and factual without any thinking process.",
    );
    r
}

/// The chat prompt when only a project is in context.
pub fn chat_prompt_with_project(project_name: &str, message: &str) -> (r: String)
    ensures
        r@ == "Context: You are an AI assistant helping with the '"@ + project_name@
            + "' project.\n\nUser question: "@ + message@
            + "\n\nPlease provide a helpful, detailed response about this project. If the user is asking about project structure, explain the typical structure of such projects and suggest they select a specific file for more detailed analysis. If they're asking about code, suggest they click on a file to get specific information. Be direct and factual without any thinking process."@,
{
    let mut r = String::new();
    r.append("Context: You are an AI assistant helping with the '");
    r.append(project_name);
    r.append("' project.\n\nUser question: ");
    r.append(message);
    r.append(
        "\n\nPlease provide a helpful, detailed response about this project. If the user is asking about project structure, explain the typical structure of such projects and suggest they select a specific file for more detailed analysis. If they're asking about code, suggest they click on a file to get specific information. Be direct and factual without any thinking process.",
    );
    r
}

/// The chat prompt when no project is in context.
pub fn chat_prompt_plain(message: &str) -> (r: String)
    ensures
        r@ == "User question: "@ + message@
            + "\n\nYou are an AI assistant for code analysis. Please provide a helpful response. If the user is asking about project structure, explain that you need more context and suggest they upload a project or select a specific file for detailed analysis. Be direct and factual without any thinking process."@,
{
    let mut r = String::new();
    r.append("User question: ");
    r.append(message);
    r.append(
        "\n\nYou are an AI assistant for code analysis. Please provide a helpful response. If the user is asking about project structure, explain that you need more context and suggest they upload a project or select a specific file for detailed analysis. Be direct and factual without any thinking process.",
    );
    r
}

} // verus!
