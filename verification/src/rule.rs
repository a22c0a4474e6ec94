use vstd::prelude::*;

verus! {

/// The syntax rules of the SATySFi grammar, one variant per rule, in the order in which the
/// parser declares them (the position of a variant is its index, see [`Rule::from_index`]).
#[allow(non_camel_case_types)]
#[derive(Debug, PartialEq, Eq, Clone, Copy, Hash, Structural)]
pub enum Rule {
    misc,
    program_saty,
    program_satyh,
    preamble,
    stage,
    headers,
    header_require,
    header_import,
    pkgname,
    let_stmt,
    let_rec_stmt,
    let_rec_inner,
    let_rec_matcharm,
    let_inline_stmt_ctx,
    let_inline_stmt_noctx,
    let_block_stmt_ctx,
    let_block_stmt_noctx,
    let_math_stmt,
    let_mutable_stmt,
    type_stmt,
    type_inner,
    type_variant,
    module_stmt,
    open_stmt,
    arg,
    sig_stmt,
    struct_stmt,
    sig_type_stmt,
    sig_val_stmt,
    sig_direct_stmt,
    type_expr,
    type_optional,
    type_prod,
    type_inline_cmd,
    type_block_cmd,
    type_math_cmd,
    type_list_unit_optional,
    type_application,
    typename,
    type_record,
    type_record_unit,
    type_param,
    constraint,
    pat_as,
    pat_cons,
    pattern,
    pat_variant,
    pat_list,
    pat_tuple,
    expr,
    match_expr,
    match_arm,
    match_guard,
    bind_stmt,
    ctrl_while,
    ctrl_if,
    lambda,
    assignment,
    dyadic_expr,
    unary_operator_expr,
    unary_operator,
    application,
    application_args_normal,
    application_args_optional,
    command_application,
    variant_constructor,
    unary,
    unary_prefix,
    block_text,
    horizontal_text,
    math_text,
    list,
    record,
    record_unit,
    tuple,
    bin_operator,
    expr_with_mod,
    var,
    var_ptn,
    modvar,
    mod_cmd_name,
    module_name,
    variant_name,
    cmd_name_ptn,
    cmd_expr_arg,
    cmd_expr_option,
    cmd_text_arg,
    inline_cmd,
    inline_cmd_name,
    block_cmd,
    block_cmd_name,
    math_cmd,
    math_cmd_name,
    math_cmd_expr_arg,
    math_cmd_expr_option,
    horizontal_single,
    horizontal_list,
    horizontal_bullet_list,
    horizontal_bullet,
    horizontal_bullet_star,
    regular_text,
    horizontal_escaped_char,
    inline_text_embedding,
    vertical,
    block_text_embedding,
    const_unit,
    const_bool,
    const_int,
    const_float,
    const_length,
    const_string,
    math_single,
    math_list,
    math_token,
    math_sup,
    math_sub,
    math_unary,
    math_embedding,
    dummy_header,
    dummy_sig_stmt,
    dummy_stmt,
    dummy_inline_cmd_incomplete,
    dummy_block_cmd_incomplete,
    dummy_modvar_incomplete,
}

/// The rule whose variant stands at position `i` of the grammar's list of rules.
pub open spec fn rule_of_index(i: u16) -> Option<Rule> {
    match i {
        0 => Some(Rule::misc),
        1 => Some(Rule::program_saty),
        2 => Some(Rule::program_satyh),
        3 => Some(Rule::preamble),
        4 => Some(Rule::stage),
        5 => Some(Rule::headers),
        6 => Some(Rule::header_require),
        7 => Some(Rule::header_import),
        8 => Some(Rule::pkgname),
        9 => Some(Rule::let_stmt),
        10 => Some(Rule::let_rec_stmt),
        11 => Some(Rule::let_rec_inner),
        12 => Some(Rule::let_rec_matcharm),
        13 => Some(Rule::let_inline_stmt_ctx),
        14 => Some(Rule::let_inline_stmt_noctx),
        15 => Some(Rule::let_block_stmt_ctx),
        16 => Some(Rule::let_block_stmt_noctx),
        17 => Some(Rule::let_math_stmt),
        18 => Some(Rule::let_mutable_stmt),
        19 => Some(Rule::type_stmt),
        20 => Some(Rule::type_inner),
        21 => Some(Rule::type_variant),
        22 => Some(Rule::module_stmt),
        23 => Some(Rule::open_stmt),
        24 => Some(Rule::arg),
        25 => Some(Rule::sig_stmt),
        26 => Some(Rule::struct_stmt),
        27 => Some(Rule::sig_type_stmt),
        28 => Some(Rule::sig_val_stmt),
        29 => Some(Rule::sig_direct_stmt),
        30 => Some(Rule::type_expr),
        31 => Some(Rule::type_optional),
        32 => Some(Rule::type_prod),
        33 => Some(Rule::type_inline_cmd),
        34 => Some(Rule::type_block_cmd),
        35 => Some(Rule::type_math_cmd),
        36 => Some(Rule::type_list_unit_optional),
        37 => Some(Rule::type_application),
        38 => Some(Rule::typename),
        39 => Some(Rule::type_record),
        40 => Some(Rule::type_record_unit),
        41 => Some(Rule::type_param),
        42 => Some(Rule::constraint),
        43 => Some(Rule::pat_as),
        44 => Some(Rule::pat_cons),
        45 => Some(Rule::pattern),
        46 => Some(Rule::pat_variant),
        47 => Some(Rule::pat_list),
        48 => Some(Rule::pat_tuple),
        49 => Some(Rule::expr),
        50 => Some(Rule::match_expr),
        51 => Some(Rule::match_arm),
        52 => Some(Rule::match_guard),
        53 => Some(Rule::bind_stmt),
        54 => Some(Rule::ctrl_while),
        55 => Some(Rule::ctrl_if),
        56 => Some(Rule::lambda),
        57 => Some(Rule::assignment),
        58 => Some(Rule::dyadic_expr),
        59 => Some(Rule::unary_operator_expr),
        60 => Some(Rule::unary_operator),
        61 => Some(Rule::application),
        62 => Some(Rule::application_args_normal),
        63 => Some(Rule::application_args_optional),
        64 => Some(Rule::command_application),
        65 => Some(Rule::variant_constructor),
        66 => Some(Rule::unary),
        67 => Some(Rule::unary_prefix),
        68 => Some(Rule::block_text),
        69 => Some(Rule::horizontal_text),
        70 => Some(Rule::math_text),
        71 => Some(Rule::list),
        72 => Some(Rule::record),
        73 => Some(Rule::record_unit),
        74 => Some(Rule::tuple),
        75 => Some(Rule::bin_operator),
        76 => Some(Rule::expr_with_mod),
        77 => Some(Rule::var),
        78 => Some(Rule::var_ptn),
        79 => Some(Rule::modvar),
        80 => Some(Rule::mod_cmd_name),
        81 => Some(Rule::module_name),
        82 => Some(Rule::variant_name),
        83 => Some(Rule::cmd_name_ptn),
        84 => Some(Rule::cmd_expr_arg),
        85 => Some(Rule::cmd_expr_option),
        86 => Some(Rule::cmd_text_arg),
        87 => Some(Rule::inline_cmd),
        88 => Some(Rule::inline_cmd_name),
        89 => Some(Rule::block_cmd),
        90 => Some(Rule::block_cmd_name),
        91 => Some(Rule::math_cmd),
        92 => Some(Rule::math_cmd_name),
        93 => Some(Rule::math_cmd_expr_arg),
        94 => Some(Rule::math_cmd_expr_option),
        95 => Some(Rule::horizontal_single),
        96 => Some(Rule::horizontal_list),
        97 => Some(Rule::horizontal_bullet_list),
        98 => Some(Rule::horizontal_bullet),
        99 => Some(Rule::horizontal_bullet_star),
        100 => Some(Rule::regular_text),
        101 => Some(Rule::horizontal_escaped_char),
        102 => Some(Rule::inline_text_embedding),
        103 => Some(Rule::vertical),
        104 => Some(Rule::block_text_embedding),
        105 => Some(Rule::const_unit),
        106 => Some(Rule::const_bool),
        107 => Some(Rule::const_int),
        108 => Some(Rule::const_float),
        109 => Some(Rule::const_length),
        110 => Some(Rule::const_string),
        111 => Some(Rule::math_single),
        112 => Some(Rule::math_list),
        113 => Some(Rule::math_token),
        114 => Some(Rule::math_sup),
        115 => Some(Rule::math_sub),
        116 => Some(Rule::math_unary),
        117 => Some(Rule::math_embedding),
        118 => Some(Rule::dummy_header),
        119 => Some(Rule::dummy_sig_stmt),
        120 => Some(Rule::dummy_stmt),
        121 => Some(Rule::dummy_inline_cmd_incomplete),
        122 => Some(Rule::dummy_block_cmd_incomplete),
        123 => Some(Rule::dummy_modvar_incomplete),
        _ => None,
    }
}

impl Rule {
    /// Number of rules of the grammar.
    pub const COUNT: u16 = 124u16;

    /// The rule at position `i` of the grammar's list of rules, if there is one.
    pub fn from_index(i: u16) -> (r: Option<Rule>)
        ensures
            r == rule_of_index(i),
            r is None <==> i >= Rule::COUNT,
    {
        match i {
            0 => Some(Rule::misc),
            1 => Some(Rule::program_saty),
            2 => Some(Rule::program_satyh),
            3 => Some(Rule::preamble),
            4 => Some(Rule::stage),
            5 => Some(Rule::headers),
            6 => Some(Rule::header_require),
            7 => Some(Rule::header_import),
            8 => Some(Rule::pkgname),
            9 => Some(Rule::let_stmt),
            10 => Some(Rule::let_rec_stmt),
            11 => Some(Rule::let_rec_inner),
            12 => Some(Rule::let_rec_matcharm),
            13 => Some(Rule::let_inline_stmt_ctx),
            14 => Some(Rule::let_inline_stmt_noctx),
            15 => Some(Rule::let_block_stmt_ctx),
            16 => Some(Rule::let_block_stmt_noctx),
            17 => Some(Rule::let_math_stmt),
            18 => Some(Rule::let_mutable_stmt),
            19 => Some(Rule::type_stmt),
            20 => Some(Rule::type_inner),
            21 => Some(Rule::type_variant),
            22 => Some(Rule::module_stmt),
            23 => Some(Rule::open_stmt),
            24 => Some(Rule::arg),
            25 => Some(Rule::sig_stmt),
            26 => Some(Rule::struct_stmt),
            27 => Some(Rule::sig_type_stmt),
            28 => Some(Rule::sig_val_stmt),
            29 => Some(Rule::sig_direct_stmt),
            30 => Some(Rule::type_expr),
            31 => Some(Rule::type_optional),
            32 => Some(Rule::type_prod),
            33 => Some(Rule::type_inline_cmd),
            34 => Some(Rule::type_block_cmd),
            35 => Some(Rule::type_math_cmd),
            36 => Some(Rule::type_list_unit_optional),
            37 => Some(Rule::type_application),
            38 => Some(Rule::typename),
            39 => Some(Rule::type_record),
            40 => Some(Rule::type_record_unit),
            41 => Some(Rule::type_param),
            42 => Some(Rule::constraint),
            43 => Some(Rule::pat_as),
            44 => Some(Rule::pat_cons),
            45 => Some(Rule::pattern),
            46 => Some(Rule::pat_variant),
            47 => Some(Rule::pat_list),
            48 => Some(Rule::pat_tuple),
            49 => Some(Rule::expr),
            50 => Some(Rule::match_expr),
            51 => Some(Rule::match_arm),
            52 => Some(Rule::match_guard),
            53 => Some(Rule::bind_stmt),
            54 => Some(Rule::ctrl_while),
            55 => Some(Rule::ctrl_if),
            56 => Some(Rule::lambda),
            57 => Some(Rule::assignment),
            58 => Some(Rule::dyadic_expr),
            59 => Some(Rule::unary_operator_expr),
            60 => Some(Rule::unary_operator),
            61 => Some(Rule::application),
            62 => Some(Rule::application_args_normal),
            63 => Some(Rule::application_args_optional),
            64 => Some(Rule::command_application),
            65 => Some(Rule::variant_constructor),
            66 => Some(Rule::unary),
            67 => Some(Rule::unary_prefix),
            68 => Some(Rule::block_text),
            69 => Some(Rule::horizontal_text),
            70 => Some(Rule::math_text),
            71 => Some(Rule::list),
            72 => Some(Rule::record),
            73 => Some(Rule::record_unit),
            74 => Some(Rule::tuple),
            75 => Some(Rule::bin_operator),
            76 => Some(Rule::expr_with_mod),
            77 => Some(Rule::var),
            78 => Some(Rule::var_ptn),
            79 => Some(Rule::modvar),
            80 => Some(Rule::mod_cmd_name),
            81 => Some(Rule::module_name),
            82 => Some(Rule::variant_name),
            83 => Some(Rule::cmd_name_ptn),
            84 => Some(Rule::cmd_expr_arg),
            85 => Some(Rule::cmd_expr_option),
            86 => Some(Rule::cmd_text_arg),
            87 => Some(Rule::inline_cmd),
            88 => Some(Rule::inline_cmd_name),
            89 => Some(Rule::block_cmd),
            90 => Some(Rule::block_cmd_name),
            91 => Some(Rule::math_cmd),
            92 => Some(Rule::math_cmd_name),
            93 => Some(Rule::math_cmd_expr_arg),
            94 => Some(Rule::math_cmd_expr_option),
            95 => Some(Rule::horizontal_single),
            96 => Some(Rule::horizontal_list),
            97 => Some(Rule::horizontal_bullet_list),
            98 => Some(Rule::horizontal_bullet),
            99 => Some(Rule::horizontal_bullet_star),
            100 => Some(Rule::regular_text),
            101 => Some(Rule::horizontal_escaped_char),
            102 => Some(Rule::inline_text_embedding),
            103 => Some(Rule::vertical),
            104 => Some(Rule::block_text_embedding),
            105 => Some(Rule::const_unit),
            106 => Some(Rule::const_bool),
            107 => Some(Rule::const_int),
            108 => Some(Rule::const_float),
            109 => Some(Rule::const_length),
            110 => Some(Rule::const_string),
            111 => Some(Rule::math_single),
            112 => Some(Rule::math_list),
            113 => Some(Rule::math_token),
            114 => Some(Rule::math_sup),
            115 => Some(Rule::math_sub),
            116 => Some(Rule::math_unary),
            117 => Some(Rule::math_embedding),
            118 => Some(Rule::dummy_header),
            119 => Some(Rule::dummy_sig_stmt),
            120 => Some(Rule::dummy_stmt),
            121 => Some(Rule::dummy_inline_cmd_incomplete),
            122 => Some(Rule::dummy_block_cmd_incomplete),
            123 => Some(Rule::dummy_modvar_incomplete),
            _ => None,
        }
    }
}

impl Rule {
    /// The position of the rule in the grammar's list of rules.
    pub open spec fn index(self) -> u16 {
        match self {
            Rule::misc => 0,
            Rule::program_saty => 1,
            Rule::program_satyh => 2,
            Rule::preamble => 3,
            Rule::stage => 4,
            Rule::headers => 5,
            Rule::header_require => 6,
            Rule::header_import => 7,
            Rule::pkgname => 8,
            Rule::let_stmt => 9,
            Rule::let_rec_stmt => 10,
            Rule::let_rec_inner => 11,
            Rule::let_rec_matcharm => 12,
            Rule::let_inline_stmt_ctx => 13,
            Rule::let_inline_stmt_noctx => 14,
            Rule::let_block_stmt_ctx => 15,
            Rule::let_block_stmt_noctx => 16,
            Rule::let_math_stmt => 17,
            Rule::let_mutable_stmt => 18,
            Rule::type_stmt => 19,
            Rule::type_inner => 20,
            Rule::type_variant => 21,
            Rule::module_stmt => 22,
            Rule::open_stmt => 23,
            Rule::arg => 24,
            Rule::sig_stmt => 25,
            Rule::struct_stmt => 26,
            Rule::sig_type_stmt => 27,
            Rule::sig_val_stmt => 28,
            Rule::sig_direct_stmt => 29,
            Rule::type_expr => 30,
            Rule::type_optional => 31,
            Rule::type_prod => 32,
            Rule::type_inline_cmd => 33,
            Rule::type_block_cmd => 34,
            Rule::type_math_cmd => 35,
            Rule::type_list_unit_optional => 36,
            Rule::type_application => 37,
            Rule::typename => 38,
            Rule::type_record => 39,
            Rule::type_record_unit => 40,
            Rule::type_param => 41,
            Rule::constraint => 42,
            Rule::pat_as => 43,
            Rule::pat_cons => 44,
            Rule::pattern => 45,
            Rule::pat_variant => 46,
            Rule::pat_list => 47,
            Rule::pat_tuple => 48,
            Rule::expr => 49,
            Rule::match_expr => 50,
            Rule::match_arm => 51,
            Rule::match_guard => 52,
            Rule::bind_stmt => 53,
            Rule::ctrl_while => 54,
            Rule::ctrl_if => 55,
            Rule::lambda => 56,
            Rule::assignment => 57,
            Rule::dyadic_expr => 58,
            Rule::unary_operator_expr => 59,
            Rule::unary_operator => 60,
            Rule::application => 61,
            Rule::application_args_normal => 62,
            Rule::application_args_optional => 63,
            Rule::command_application => 64,
            Rule::variant_constructor => 65,
            Rule::unary => 66,
            Rule::unary_prefix => 67,
            Rule::block_text => 68,
            Rule::horizontal_text => 69,
            Rule::math_text => 70,
            Rule::list => 71,
            Rule::record => 72,
            Rule::record_unit => 73,
            Rule::tuple => 74,
            Rule::bin_operator => 75,
            Rule::expr_with_mod => 76,
            Rule::var => 77,
            Rule::var_ptn => 78,
            Rule::modvar => 79,
            Rule::mod_cmd_name => 80,
            Rule::module_name => 81,
            Rule::variant_name => 82,
            Rule::cmd_name_ptn => 83,
            Rule::cmd_expr_arg => 84,
            Rule::cmd_expr_option => 85,
            Rule::cmd_text_arg => 86,
            Rule::inline_cmd => 87,
            Rule::inline_cmd_name => 88,
            Rule::block_cmd => 89,
            Rule::block_cmd_name => 90,
            Rule::math_cmd => 91,
            Rule::math_cmd_name => 92,
            Rule::math_cmd_expr_arg => 93,
            Rule::math_cmd_expr_option => 94,
            Rule::horizontal_single => 95,
            Rule::horizontal_list => 96,
            Rule::horizontal_bullet_list => 97,
            Rule::horizontal_bullet => 98,
            Rule::horizontal_bullet_star => 99,
            Rule::regular_text => 100,
            Rule::horizontal_escaped_char => 101,
            Rule::inline_text_embedding => 102,
            Rule::vertical => 103,
            Rule::block_text_embedding => 104,
            Rule::const_unit => 105,
            Rule::const_bool => 106,
            Rule::const_int => 107,
            Rule::const_float => 108,
            Rule::const_length => 109,
            Rule::const_string => 110,
            Rule::math_single => 111,
            Rule::math_list => 112,
            Rule::math_token => 113,
            Rule::math_sup => 114,
            Rule::math_sub => 115,
            Rule::math_unary => 116,
            Rule::math_embedding => 117,
            Rule::dummy_header => 118,
            Rule::dummy_sig_stmt => 119,
            Rule::dummy_stmt => 120,
            Rule::dummy_inline_cmd_incomplete => 121,
            Rule::dummy_block_cmd_incomplete => 122,
            Rule::dummy_modvar_incomplete => 123,
        }
    }
}

/// The position of a rule and the rule at a position determine each other.
pub proof fn lemma_rule_index(r: Rule, i: u16)
    ensures
        rule_of_index(r.index()) == Some(r),
        rule_of_index(i) == Some(r) <==> r.index() == i,
{
}

} // verus!
