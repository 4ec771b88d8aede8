//! The application configuration: plain settings the pipeline reads. Loading
//! and saving it are the shell's business; the defaults and the settled
//! location of the configuration file are stated here.

use vstd::prelude::*;
use vstd::string::StringExecFns;

verus! {

#[derive(Clone)]
pub struct AppConfig {
    pub api_key: String,
    pub base_url: String,
    pub input_path: String,
    pub output_path: String,
    pub check_path: String,
    pub model: String,
    pub source_lang: String,
    pub target_lang: String,
    pub batch_size: usize,
    pub skip_existing: bool,
    pub max_retries: u32,
    pub retry_delay: u64,
    pub file_semaphore: usize,
    pub max_network_concurrency: usize,
    pub timeout: u64,
    pub prompt: String,
    pub skip_quest: bool,
}

impl AppConfig {
    /// Where the configuration is persisted.
    pub fn config_path() -> (r: String)
        ensures
            r@ == "./MC_Translator/config.json"@,
    {
        String::from_str("./MC_Translator/config.json")
    }
}

impl Default for AppConfig {
    fn default() -> (r: Self)
        ensures
            r.api_key@ == ""@,
            r.base_url@ == "https://api.openai.com/v1"@,
            r.input_path@ == ""@,
            r.output_path@ == "./MC_Translator/output_cn"@,
            r.check_path@ == "./MC_Translator/output_cn"@,
            r.model@ == "gpt-3.5-turbo"@,
            r.source_lang@ == "en_us"@,
            r.target_lang@ == "zh_cn"@,
            r.batch_size == 200,
            r.skip_existing == true,
            r.max_retries == 5,
            r.retry_delay == 10,
            r.file_semaphore == 5,
            r.max_network_concurrency == 10,
            r.timeout == 600,
            r.prompt@.len() > 0,
            r.skip_quest == true,
    {
        let prompt = String::from_str(
            "你是一个《我的世界》(Minecraft) 模组本地化专家。当前模组 ID: 【{MOD_ID}】。\n我将发送一个包含英文原文的 JSON 字符串数组。\n请将数组中的每一项翻译为简体中文，并返回一个 JSON 字符串数组。\n要求：\n1. **严格保持顺序**：输出数组的第 N 项必须对应输入数组的第 N 项。\n2. **严格保持长度**：输出数组的元素数量必须与输入完全一致。\n3. 请严格保留格式代码（如 §a, %s, {0}，\\n 等）。\n4. 只返回纯净的 JSON 字符串，不要包含 Markdown 代码块标记。",
        );
        proof {
            reveal_strlit("");
            assert(""@ =~= Seq::<char>::empty());
            reveal_strlit(
                "你是一个《我的世界》(Minecraft) 模组本地化专家。当前模组 ID: 【{MOD_ID}】。\n我将发送一个包含英文原文的 JSON 字符串数组。\n请将数组中的每一项翻译为简体中文，并返回一个 JSON 字符串数组。\n要求：\n1. **严格保持顺序**：输出数组的第 N 项必须对应输入数组的第 N 项。\n2. **严格保持长度**：输出数组的元素数量必须与输入完全一致。\n3. 请严格保留格式代码（如 §a, %s, {0}，\\n 等）。\n4. 只返回纯净的 JSON 字符串，不要包含 Markdown 代码块标记。",
            );
        }
        AppConfig {
            api_key: String::new(),
            base_url: String::from_str("https://api.openai.com/v1"),
            input_path: String::new(),
            output_path: String::from_str("./MC_Translator/output_cn"),
            check_path: String::from_str("./MC_Translator/output_cn"),
            model: String::from_str("gpt-3.5-turbo"),
            source_lang: String::from_str("en_us"),
            target_lang: String::from_str("zh_cn"),
            batch_size: 200,
            skip_existing: true,
            max_retries: 5,
            retry_delay: 10,
            file_semaphore: 5,
            max_network_concurrency: 10,
            timeout: 600,
            prompt,
            skip_quest: true,
        }
    }
}

} // verus!
