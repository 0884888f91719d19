//! The codes of the DWARF format that the library tells apart.

#![allow(non_upper_case_globals)]

use vstd::prelude::*;

verus! {

pub const DW_TAG_array_type: u64 = 0x01;

pub const DW_TAG_enumeration_type: u64 = 0x04;

pub const DW_TAG_formal_parameter: u64 = 0x05;

pub const DW_TAG_lexical_block: u64 = 0x0b;

pub const DW_TAG_member: u64 = 0x0d;

pub const DW_TAG_pointer_type: u64 = 0x0f;

pub const DW_TAG_compile_unit: u64 = 0x11;

pub const DW_TAG_structure_type: u64 = 0x13;

pub const DW_TAG_subroutine_type: u64 = 0x15;

pub const DW_TAG_typedef: u64 = 0x16;

pub const DW_TAG_union_type: u64 = 0x17;

pub const DW_TAG_inlined_subroutine: u64 = 0x1d;

pub const DW_TAG_subrange_type: u64 = 0x21;

pub const DW_TAG_base_type: u64 = 0x24;

pub const DW_TAG_const_type: u64 = 0x26;

pub const DW_TAG_enumerator: u64 = 0x28;

pub const DW_TAG_subprogram: u64 = 0x2e;

pub const DW_TAG_variable: u64 = 0x34;

pub const DW_TAG_restrict_type: u64 = 0x37;

pub const DW_TAG_namespace: u64 = 0x39;

pub const DW_AT_sibling: u64 = 0x01;

pub const DW_AT_name: u64 = 0x03;

pub const DW_AT_byte_size: u64 = 0x0b;

pub const DW_AT_bit_offset: u64 = 0x0c;

pub const DW_AT_bit_size: u64 = 0x0d;

pub const DW_AT_low_pc: u64 = 0x11;

pub const DW_AT_high_pc: u64 = 0x12;

pub const DW_AT_language: u64 = 0x13;

pub const DW_AT_comp_dir: u64 = 0x1b;

pub const DW_AT_const_value: u64 = 0x1c;

pub const DW_AT_inline: u64 = 0x20;

pub const DW_AT_upper_bound: u64 = 0x2f;

pub const DW_AT_abstract_origin: u64 = 0x31;

pub const DW_AT_count: u64 = 0x37;

pub const DW_AT_data_member_location: u64 = 0x38;

pub const DW_AT_declaration: u64 = 0x3c;

pub const DW_AT_type: u64 = 0x49;

pub const DW_AT_ranges: u64 = 0x55;

pub const DW_AT_data_bit_offset: u64 = 0x6b;

pub const DW_AT_linkage_name: u64 = 0x6e;

pub const DW_INL_inlined: u8 = 0x01;

pub const DW_INL_declared_inlined: u8 = 0x03;

/// The codes are those that the DWARF standard assigns.
pub proof fn lemma_codes_are_the_standard_ones()
    ensures
        DW_TAG_array_type == 0x01,
        DW_TAG_enumeration_type == 0x04,
        DW_TAG_formal_parameter == 0x05,
        DW_TAG_lexical_block == 0x0b,
        DW_TAG_member == 0x0d,
        DW_TAG_pointer_type == 0x0f,
        DW_TAG_compile_unit == 0x11,
        DW_TAG_structure_type == 0x13,
        DW_TAG_subroutine_type == 0x15,
        DW_TAG_typedef == 0x16,
        DW_TAG_union_type == 0x17,
        DW_TAG_inlined_subroutine == 0x1d,
        DW_TAG_subrange_type == 0x21,
        DW_TAG_base_type == 0x24,
        DW_TAG_const_type == 0x26,
        DW_TAG_enumerator == 0x28,
        DW_TAG_subprogram == 0x2e,
        DW_TAG_variable == 0x34,
        DW_TAG_restrict_type == 0x37,
        DW_TAG_namespace == 0x39,
        DW_AT_sibling == 0x01,
        DW_AT_name == 0x03,
        DW_AT_byte_size == 0x0b,
        DW_AT_bit_offset == 0x0c,
        DW_AT_bit_size == 0x0d,
        DW_AT_low_pc == 0x11,
        DW_AT_high_pc == 0x12,
        DW_AT_language == 0x13,
        DW_AT_comp_dir == 0x1b,
        DW_AT_const_value == 0x1c,
        DW_AT_inline == 0x20,
        DW_AT_upper_bound == 0x2f,
        DW_AT_abstract_origin == 0x31,
        DW_AT_count == 0x37,
        DW_AT_data_member_location == 0x38,
        DW_AT_declaration == 0x3c,
        DW_AT_type == 0x49,
        DW_AT_ranges == 0x55,
        DW_AT_data_bit_offset == 0x6b,
        DW_AT_linkage_name == 0x6e,
        DW_INL_inlined == 0x01,
        DW_INL_declared_inlined == 0x03,
{
}

} // verus!
