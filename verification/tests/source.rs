use linebreak_tables::source::{chars_of, read_byte_constant, read_pair_table, read_safe_pairs, tables_from_source};
use linebreak_tables::fnv::driver_unchanged;
use linebreak_tables::source::{find, section_of, words_of};
use linebreak_tables::tables::tables;

/// The shared definitions of unicode-linebreak 0.1.5 that the tables file
/// reads: the abbreviations of class names and the classes for end and
/// start of text.
const SHARED: &str = "use BreakClass::{\n    After as BA, Alphabetic as AL, Ambiguous as AI, Before as BB, BeforeAndAfter as B2,\n    CarriageReturn as CR, CloseParenthesis as CP, ClosePunctuation as CL, CombiningMark as CM,\n    ComplexContext as SA, ConditionalJapaneseStarter as CJ, Contingent as CB, EmojiBase as EB,\n    EmojiModifier as EM, Exclamation as EX, HangulLJamo as JL, HangulLvSyllable as H2,\n    HangulLvtSyllable as H3, HangulTJamo as JT, HangulVJamo as JV, HebrewLetter as HL,\n    Hyphen as HY, Ideographic as ID, InfixSeparator as IS, Inseparable as IN, LineFeed as LF,\n    Mandatory as BK, NextLine as NL, NonBreakingGlue as GL, NonStarter as NS, Numeric as NU,\n    OpenPunctuation as OP, Postfix as PO, Prefix as PR, Quotation as QU, RegionalIndicator as RI,\n    Space as SP, Surrogate as SG, Symbol as SY, Unknown as XX, WordJoiner as WJ,\n    ZeroWidthJoiner as ZWJ, ZeroWidthSpace as ZW,\n};\n\n#[allow(non_upper_case_globals)]\nconst eot: u8 = 43;\n#[allow(non_upper_case_globals)]\nconst sot: u8 = 44;\n";

/// The lines of the tables of unicode-linebreak 0.1.5 that hold the pair
/// table and `is_safe_pair`.
const TABLES: &str = "static PAIR_TABLE: [[u8; 44]; 53] = [[192,193,194,221,196,221,198,199,200,201,221,203,204,205,206,207,208,209,210,211,212,213,214,215,216,217,218,219,221,221,212,223,224,225,226,227,228,229,230,231,232,221,221,235,],[192,193,2,221,196,221,198,199,200,201,221,203,204,205,206,207,208,209,210,211,212,213,214,215,216,217,218,219,221,221,212,223,224,225,226,227,228,229,230,231,232,221,221,235,],[192,193,194,221,196,221,198,199,200,201,221,203,204,205,206,207,208,209,210,211,212,213,214,215,216,217,218,219,221,221,212,223,224,225,226,227,228,229,230,231,232,221,221,235,],[0,1,2,3,4,29,6,7,8,9,3,139,12,141,14,143,16,17,18,19,20,21,22,23,24,25,26,27,29,29,20,159,160,161,162,35,164,165,166,167,168,29,29,235,],[192,193,194,221,196,221,198,199,200,201,221,203,204,205,206,207,208,209,210,211,212,213,214,215,216,217,218,219,221,221,212,223,224,225,226,227,228,229,230,231,232,221,221,235,],[0,1,2,29,4,29,6,7,8,9,29,139,12,141,14,143,16,17,18,19,20,21,22,23,24,25,26,27,29,29,20,159,160,161,162,35,164,165,166,167,168,29,29,235,],[0,1,2,6,4,29,6,7,8,9,6,11,12,13,14,15,16,17,18,19,20,21,22,23,24,25,26,27,29,29,20,31,32,33,34,35,36,37,38,39,40,29,29,235,],[0,1,2,157,4,157,134,7,136,45,157,139,140,141,142,143,144,145,146,147,148,149,150,151,152,153,154,155,157,157,148,159,160,161,162,163,164,165,166,167,168,157,157,235,],[0,1,2,8,4,29,6,7,8,9,8,11,12,13,14,15,16,17,18,19,20,21,22,23,24,25,26,27,29,29,20,31,32,33,34,35,36,37,38,39,40,29,29,235,],[0,1,2,157,4,157,6,7,136,9,157,139,140,141,142,143,16,17,18,147,148,149,150,23,152,153,154,27,157,157,148,159,160,161,162,163,164,165,166,167,168,157,157,235,],[0,1,2,10,4,29,6,7,8,9,10,139,12,141,14,143,16,17,18,19,20,21,22,23,24,25,26,27,29,29,20,159,160,161,162,35,164,165,166,167,168,29,29,235,],[0,1,2,11,4,157,6,7,8,50,11,11,12,141,14,143,16,17,18,19,20,149,22,23,152,153,154,27,157,157,20,159,160,161,162,163,164,165,166,167,168,157,157,235,],[0,1,2,12,4,157,6,7,136,9,12,139,12,141,14,143,16,17,18,19,20,149,22,23,152,153,154,27,157,157,20,159,160,161,162,163,164,165,166,167,168,157,157,235,],[0,1,2,13,4,29,6,7,8,9,13,11,12,13,14,143,16,17,18,19,20,21,22,23,24,25,26,27,29,29,20,31,32,33,34,35,36,37,38,39,40,29,29,235,],[0,1,2,14,4,157,6,7,136,9,14,139,12,141,14,143,16,17,18,19,20,149,22,23,24,153,154,27,157,157,20,159,160,161,162,163,164,165,166,167,168,157,157,235,],[0,1,2,15,4,157,6,7,8,9,15,139,140,141,142,143,16,17,18,147,148,149,22,23,152,153,154,27,157,157,148,159,160,161,162,163,164,165,166,167,168,157,157,235,],[0,1,2,16,4,157,6,7,8,48,16,139,12,141,14,143,16,17,18,19,20,149,22,23,152,25,26,27,157,157,20,159,160,161,162,163,164,165,166,167,168,157,157,235,],[0,1,2,17,4,29,6,7,8,49,17,139,12,141,14,143,16,17,18,19,20,149,22,23,24,25,26,27,29,29,20,159,160,161,162,35,164,165,166,167,168,29,29,235,],[0,1,2,18,4,157,6,7,8,9,18,139,12,141,14,143,16,17,18,19,20,149,22,23,152,153,154,27,157,157,20,159,160,161,162,163,164,165,166,167,168,157,157,235,],[0,1,2,19,4,157,6,7,8,9,19,139,12,141,14,143,16,17,18,19,20,149,22,23,152,153,154,27,157,157,20,159,160,161,162,163,164,165,166,167,168,157,157,235,],[0,1,2,20,4,157,6,7,8,9,20,139,12,141,14,143,16,17,18,19,20,149,22,23,152,153,154,27,157,157,20,159,160,161,162,163,164,165,166,167,168,157,157,235,],[0,1,2,21,4,29,6,7,8,46,21,11,12,13,14,15,16,17,18,19,20,21,22,23,24,25,26,27,29,29,20,31,32,33,34,35,36,37,38,39,40,29,29,235,],[0,1,2,22,4,29,6,7,8,47,22,11,12,13,14,15,16,17,18,19,20,21,22,23,24,25,26,27,29,29,20,31,32,33,34,35,36,37,38,39,40,29,29,235,],[0,1,2,23,4,29,6,7,8,9,23,139,12,141,14,143,16,17,18,19,20,149,22,23,24,153,154,27,29,29,20,159,160,161,162,35,164,165,166,167,168,29,29,235,],[0,1,2,24,4,29,6,7,8,9,24,139,12,141,14,143,16,17,18,19,20,21,22,23,24,25,26,27,29,29,20,159,160,161,162,35,164,165,166,167,168,29,29,235,],[0,1,2,25,4,29,6,7,8,9,25,139,12,141,14,143,16,17,18,19,20,21,22,23,24,153,154,27,29,29,20,159,160,161,162,35,164,165,166,167,168,29,29,235,],[0,1,2,26,4,29,6,7,8,9,26,139,12,141,14,143,16,17,18,19,20,21,22,23,24,153,154,27,29,29,20,31,32,33,34,35,36,37,38,39,168,29,29,235,],[0,1,2,27,4,157,6,7,8,9,27,139,12,141,14,143,16,17,18,19,20,149,22,23,24,153,154,27,157,157,20,159,160,161,162,35,164,165,166,167,168,157,157,235,],[0,1,2,29,4,29,6,7,8,9,29,139,12,141,14,143,16,17,18,19,20,21,22,23,24,25,26,27,29,29,20,159,160,161,162,35,164,165,166,167,168,29,29,235,],[0,1,2,29,4,29,6,7,8,9,29,139,12,141,14,143,16,17,18,19,20,21,22,23,24,25,26,27,29,29,20,159,160,161,162,35,164,165,166,167,168,29,29,235,],[0,1,2,20,4,157,6,7,8,9,20,139,12,141,14,143,16,17,18,19,20,149,22,23,152,153,154,27,157,157,20,159,160,161,162,163,164,165,166,167,168,157,157,235,],[0,1,2,31,4,157,6,7,8,9,31,139,12,141,14,143,16,17,18,19,20,149,22,23,152,25,154,27,157,157,20,159,32,161,162,163,164,165,166,167,168,157,157,235,],[0,1,2,32,4,157,6,7,8,9,32,139,12,141,14,143,16,17,18,19,20,149,22,23,152,25,154,27,157,157,20,159,160,161,162,163,164,165,166,167,168,157,157,235,],[0,1,2,33,4,157,6,7,8,9,33,139,12,141,14,143,16,17,18,19,20,149,22,23,152,25,154,27,157,157,20,159,160,161,162,163,164,165,38,39,168,157,157,235,],[0,1,2,34,4,157,6,7,8,9,34,139,12,141,14,143,16,17,18,19,20,149,22,23,152,25,154,27,157,157,20,159,160,161,162,163,164,165,166,39,168,157,157,235,],[0,1,2,35,4,29,6,7,8,9,35,139,51,141,51,143,16,17,18,19,20,21,22,23,24,25,26,27,29,29,20,159,160,161,162,35,164,165,166,167,168,29,29,235,],[0,1,2,36,4,157,6,7,8,9,36,139,12,141,14,143,16,17,18,19,20,149,22,23,152,25,154,27,157,157,20,159,160,161,162,163,164,165,166,167,168,157,157,235,],[0,1,2,37,4,157,6,7,8,9,37,139,12,141,14,143,16,17,18,19,20,149,22,23,152,25,154,27,157,157,20,159,160,33,34,163,164,37,38,167,168,157,157,235,],[0,1,2,38,4,157,6,7,8,9,38,139,12,141,14,143,16,17,18,19,20,149,22,23,152,25,154,27,157,157,20,159,160,161,162,163,164,165,38,39,168,157,157,235,],[0,1,2,39,4,157,6,7,8,9,39,139,12,141,14,143,16,17,18,19,20,149,22,23,152,25,154,27,157,157,20,159,160,161,162,163,164,165,166,39,168,157,157,235,],[0,1,2,40,4,157,6,7,8,9,40,139,12,141,14,143,16,17,18,19,20,149,22,23,152,153,154,27,157,157,20,159,160,161,162,163,164,165,166,167,52,157,157,235,],[0,1,2,29,4,29,6,7,8,9,29,139,12,141,14,143,16,17,18,19,20,21,22,23,24,25,26,27,29,29,20,159,160,161,162,35,164,165,166,167,168,29,29,235,],[0,1,2,29,4,29,6,7,8,9,29,139,12,141,14,143,16,17,18,19,20,21,22,23,24,25,26,27,29,29,20,159,160,161,162,35,164,165,166,167,168,29,29,235,],[0,1,2,157,4,157,6,7,136,9,157,139,12,141,14,143,16,17,18,19,20,149,22,23,152,153,154,27,157,157,20,159,160,161,162,163,164,165,166,167,168,157,157,235,],[0,1,2,29,4,29,6,7,8,9,29,11,12,13,14,15,16,17,18,19,20,21,22,23,24,25,26,27,29,29,20,31,32,33,34,35,36,37,38,39,40,29,29,43,],[0,1,2,157,4,157,134,7,136,45,157,139,140,141,142,143,144,145,146,147,148,149,150,151,152,153,154,155,157,157,148,159,160,161,162,163,164,165,166,167,168,157,157,235,],[0,1,2,29,4,29,6,7,8,46,29,11,12,13,14,15,16,17,18,19,20,21,22,23,24,25,26,27,29,29,20,31,32,33,34,35,36,37,38,39,40,29,29,235,],[0,1,2,157,4,157,6,7,136,47,157,139,140,141,142,143,16,17,18,147,148,21,150,23,152,153,154,27,157,157,148,159,160,161,162,163,164,165,166,167,168,157,157,235,],[0,1,2,157,4,157,6,7,136,48,157,139,140,141,142,143,16,17,18,147,20,149,150,23,152,153,154,27,157,157,20,159,160,161,162,163,164,165,166,167,168,157,157,235,],[0,1,2,157,4,157,6,7,136,49,157,139,140,141,142,143,16,17,18,147,20,149,150,23,152,153,154,27,157,157,20,159,160,161,162,163,164,165,166,167,168,157,157,235,],[0,1,2,157,4,157,6,7,136,50,157,11,140,141,142,143,16,17,18,147,148,149,150,23,152,153,154,27,157,157,148,159,160,161,162,163,164,165,166,167,168,157,157,235,],[0,1,2,51,4,29,6,7,8,9,51,11,12,13,14,143,16,17,18,19,20,21,22,23,24,25,26,27,29,29,20,31,32,33,34,35,36,37,38,39,40,29,29,235,],[0,1,2,52,4,157,6,7,8,9,52,139,12,141,14,143,16,17,18,19,20,149,22,23,152,153,154,27,157,157,20,159,160,161,162,163,164,165,166,167,168,157,157,235,],];\n\n        fn is_safe_pair(a: BreakClass, b: BreakClass) -> bool {\n            !matches!((a, b), (CM, CM)|(SP, CM)|(ZWJ, CM)|(BA, CM)|(HY, CM)|(RI, CM)|(CM, SG)|(SP, SG)|(ZWJ, SG)|(BA, SG)|(HY, SG)|(SP, WJ)|(CM, GL)|(SP, GL)|(ZWJ, GL)|(BA, GL)|(HY, GL)|(CM, SP)|(SP, SP)|(ZWJ, SP)|(CM, ZWJ)|(SP, ZWJ)|(ZWJ, ZWJ)|(BA, ZWJ)|(HY, ZWJ)|(RI, ZWJ)|(CM, B2)|(SP, B2)|(ZWJ, B2)|(BA, B2)|(HY, B2)|(CM, BA)|(SP, BA)|(ZWJ, BA)|(CM, BB)|(SP, BB)|(ZWJ, BB)|(BA, BB)|(HY, BB)|(CM, HY)|(SP, HY)|(ZWJ, HY)|(CM, CB)|(SP, CB)|(ZWJ, CB)|(SP, CL)|(SP, CP)|(SP, EX)|(CM, IN)|(SP, IN)|(ZWJ, IN)|(CM, NS)|(SP, NS)|(ZWJ, NS)|(CM, OP)|(SP, OP)|(ZWJ, OP)|(BA, OP)|(HY, OP)|(SP, QU)|(SP, IS)|(CM, NU)|(SP, NU)|(ZWJ, NU)|(BA, NU)|(CM, PO)|(SP, PO)|(ZWJ, PO)|(BA, PO)|(HY, PO)|(CM, PR)|(SP, PR)|(ZWJ, PR)|(BA, PR)|(HY, PR)|(SP, SY)|(CM, AI)|(SP, AI)|(ZWJ, AI)|(BA, AI)|(HY, AI)|(CM, AL)|(SP, AL)|(ZWJ, AL)|(BA, AL)|(HY, AL)|(CM, CJ)|(SP, CJ)|(ZWJ, CJ)|(CM, EB)|(SP, EB)|(ZWJ, EB)|(BA, EB)|(HY, EB)|(CM, EM)|(SP, EM)|(ZWJ, EM)|(BA, EM)|(HY, EM)|(CM, H2)|(SP, H2)|(ZWJ, H2)|(BA, H2)|(HY, H2)|(CM, H3)|(SP, H3)|(ZWJ, H3)|(BA, H3)|(HY, H3)|(CM, HL)|(SP, HL)|(ZWJ, HL)|(BA, HL)|(HY, HL)|(CM, ID)|(SP, ID)|(ZWJ, ID)|(BA, ID)|(HY, ID)|(CM, JL)|(SP, JL)|(ZWJ, JL)|(BA, JL)|(HY, JL)|(CM, JV)|(SP, JV)|(ZWJ, JV)|(BA, JV)|(HY, JV)|(CM, JT)|(SP, JT)|(ZWJ, JT)|(BA, JT)|(HY, JT)|(CM, RI)|(SP, RI)|(ZWJ, RI)|(BA, RI)|(HY, RI)|(RI, RI)|(CM, SA)|(SP, SA)|(ZWJ, SA)|(BA, SA)|(HY, SA)|(CM, XX)|(SP, XX)|(ZWJ, XX)|(BA, XX)|(HY, XX))\n        }\n";

/// The pair table of those lines, 2 base-64 digits per entry.
const PAIR_DIGITS: &str = "3031323M343M363738393M3;3<3=3>3?3@3A3B3C3D3E3F3G3H3I3J3K3M3M3D3O3P3Q3R3S3T3U3V3W3X3M3M3[3031023M343M363738393M3;3<3=3>3?3@3A3B3C3D3E3F3G3H3I3J3K3M3M3D3O3P3Q3R3S3T3U3V3W3X3M3M3[3031323M343M363738393M3;3<3=3>3?3@3A3B3C3D3E3F3G3H3I3J3K3M3M3D3O3P3Q3R3S3T3U3V3W3X3M3M3[00010203040M06070809032;0<2=0>2?0@0A0B0C0D0E0F0G0H0I0J0K0M0M0D2O2P2Q2R0S2T2U2V2W2X0M0M3[3031323M343M363738393M3;3<3=3>3?3@3A3B3C3D3E3F3G3H3I3J3K3M3M3D3O3P3Q3R3S3T3U3V3W3X3M3M3[0001020M040M060708090M2;0<2=0>2?0@0A0B0C0D0E0F0G0H0I0J0K0M0M0D2O2P2Q2R0S2T2U2V2W2X0M0M3[00010206040M06070809060;0<0=0>0?0@0A0B0C0D0E0F0G0H0I0J0K0M0M0D0O0P0Q0R0S0T0U0V0W0X0M0M3[0001022M042M2607280]2M2;2<2=2>2?2@2A2B2C2D2E2F2G2H2I2J2K2M2M2D2O2P2Q2R2S2T2U2V2W2X2M2M3[00010208040M06070809080;0<0=0>0?0@0A0B0C0D0E0F0G0H0I0J0K0M0M0D0O0P0Q0R0S0T0U0V0W0X0M0M3[0001022M042M060728092M2;2<2=2>2?0@0A0B2C2D2E2F0G2H2I2J0K2M2M2D2O2P2Q2R2S2T2U2V2W2X2M2M3[0001020:040M060708090:2;0<2=0>2?0@0A0B0C0D0E0F0G0H0I0J0K0M0M0D2O2P2Q2R0S2T2U2V2W2X0M0M3[0001020;042M0607080b0;0;0<2=0>2?0@0A0B0C0D2E0F0G2H2I2J0K2M2M0D2O2P2Q2R2S2T2U2V2W2X2M2M3[0001020<042M060728090<2;0<2=0>2?0@0A0B0C0D2E0F0G2H2I2J0K2M2M0D2O2P2Q2R2S2T2U2V2W2X2M2M3[0001020=040M060708090=0;0<0=0>2?0@0A0B0C0D0E0F0G0H0I0J0K0M0M0D0O0P0Q0R0S0T0U0V0W0X0M0M3[0001020>042M060728090>2;0<2=0>2?0@0A0B0C0D2E0F0G0H2I2J0K2M2M0D2O2P2Q2R2S2T2U2V2W2X2M2M3[0001020?042M060708090?2;2<2=2>2?0@0A0B2C2D2E0F0G2H2I2J0K2M2M2D2O2P2Q2R2S2T2U2V2W2X2M2M3[0001020@042M0607080`0@2;0<2=0>2?0@0A0B0C0D2E0F0G2H0I0J0K2M2M0D2O2P2Q2R2S2T2U2V2W2X2M2M3[0001020A040M0607080a0A2;0<2=0>2?0@0A0B0C0D2E0F0G0H0I0J0K0M0M0D2O2P2Q2R0S2T2U2V2W2X0M0M3[0001020B042M060708090B2;0<2=0>2?0@0A0B0C0D2E0F0G2H2I2J0K2M2M0D2O2P2Q2R2S2T2U2V2W2X2M2M3[0001020C042M060708090C2;0<2=0>2?0@0A0B0C0D2E0F0G2H2I2J0K2M2M0D2O2P2Q2R2S2T2U2V2W2X2M2M3[0001020D042M060708090D2;0<2=0>2?0@0A0B0C0D2E0F0G2H2I2J0K2M2M0D2O2P2Q2R2S2T2U2V2W2X2M2M3[0001020E040M0607080^0E0;0<0=0>0?0@0A0B0C0D0E0F0G0H0I0J0K0M0M0D0O0P0Q0R0S0T0U0V0W0X0M0M3[0001020F040M0607080_0F0;0<0=0>0?0@0A0B0C0D0E0F0G0H0I0J0K0M0M0D0O0P0Q0R0S0T0U0V0W0X0M0M3[0001020G040M060708090G2;0<2=0>2?0@0A0B0C0D2E0F0G0H2I2J0K0M0M0D2O2P2Q2R0S2T2U2V2W2X0M0M3[0001020H040M060708090H2;0<2=0>2?0@0A0B0C0D0E0F0G0H0I0J0K0M0M0D2O2P2Q2R0S2T2U2V2W2X0M0M3[0001020I040M060708090I2;0<2=0>2?0@0A0B0C0D0E0F0G0H2I2J0K0M0M0D2O2P2Q2R0S2T2U2V2W2X0M0M3[0001020J040M060708090J2;0<2=0>2?0@0A0B0C0D0E0F0G0H2I2J0K0M0M0D0O0P0Q0R0S0T0U0V0W2X0M0M3[0001020K042M060708090K2;0<2=0>2?0@0A0B0C0D2E0F0G0H2I2J0K2M2M0D2O2P2Q2R0S2T2U2V2W2X2M2M3[0001020M040M060708090M2;0<2=0>2?0@0A0B0C0D0E0F0G0H0I0J0K0M0M0D2O2P2Q2R0S2T2U2V2W2X0M0M3[0001020M040M060708090M2;0<2=0>2?0@0A0B0C0D0E0F0G0H0I0J0K0M0M0D2O2P2Q2R0S2T2U2V2W2X0M0M3[0001020D042M060708090D2;0<2=0>2?0@0A0B0C0D2E0F0G2H2I2J0K2M2M0D2O2P2Q2R2S2T2U2V2W2X2M2M3[0001020O042M060708090O2;0<2=0>2?0@0A0B0C0D2E0F0G2H0I2J0K2M2M0D2O0P2Q2R2S2T2U2V2W2X2M2M3[0001020P042M060708090P2;0<2=0>2?0@0A0B0C0D2E0F0G2H0I2J0K2M2M0D2O2P2Q2R2S2T2U2V2W2X2M2M3[0001020Q042M060708090Q2;0<2=0>2?0@0A0B0C0D2E0F0G2H0I2J0K2M2M0D2O2P2Q2R2S2T2U0V0W2X2M2M3[0001020R042M060708090R2;0<2=0>2?0@0A0B0C0D2E0F0G2H0I2J0K2M2M0D2O2P2Q2R2S2T2U2V0W2X2M2M3[0001020S040M060708090S2;0c2=0c2?0@0A0B0C0D0E0F0G0H0I0J0K0M0M0D2O2P2Q2R0S2T2U2V2W2X0M0M3[0001020T042M060708090T2;0<2=0>2?0@0A0B0C0D2E0F0G2H0I2J0K2M2M0D2O2P2Q2R2S2T2U2V2W2X2M2M3[0001020U042M060708090U2;0<2=0>2?0@0A0B0C0D2E0F0G2H0I2J0K2M2M0D2O2P0Q0R2S2T0U0V2W2X2M2M3[0001020V042M060708090V2;0<2=0>2?0@0A0B0C0D2E0F0G2H0I2J0K2M2M0D2O2P2Q2R2S2T2U0V0W2X2M2M3[0001020W042M060708090W2;0<2=0>2?0@0A0B0C0D2E0F0G2H0I2J0K2M2M0D2O2P2Q2R2S2T2U2V0W2X2M2M3[0001020X042M060708090X2;0<2=0>2?0@0A0B0C0D2E0F0G2H2I2J0K2M2M0D2O2P2Q2R2S2T2U2V2W0d2M2M3[0001020M040M060708090M2;0<2=0>2?0@0A0B0C0D0E0F0G0H0I0J0K0M0M0D2O2P2Q2R0S2T2U2V2W2X0M0M3[0001020M040M060708090M2;0<2=0>2?0@0A0B0C0D0E0F0G0H0I0J0K0M0M0D2O2P2Q2R0S2T2U2V2W2X0M0M3[0001022M042M060728092M2;0<2=0>2?0@0A0B0C0D2E0F0G2H2I2J0K2M2M0D2O2P2Q2R2S2T2U2V2W2X2M2M3[0001020M040M060708090M0;0<0=0>0?0@0A0B0C0D0E0F0G0H0I0J0K0M0M0D0O0P0Q0R0S0T0U0V0W0X0M0M0[0001022M042M2607280]2M2;2<2=2>2?2@2A2B2C2D2E2F2G2H2I2J2K2M2M2D2O2P2Q2R2S2T2U2V2W2X2M2M3[0001020M040M0607080^0M0;0<0=0>0?0@0A0B0C0D0E0F0G0H0I0J0K0M0M0D0O0P0Q0R0S0T0U0V0W0X0M0M3[0001022M042M0607280_2M2;2<2=2>2?0@0A0B2C2D0E2F0G2H2I2J0K2M2M2D2O2P2Q2R2S2T2U2V2W2X2M2M3[0001022M042M0607280`2M2;2<2=2>2?0@0A0B2C0D2E2F0G2H2I2J0K2M2M0D2O2P2Q2R2S2T2U2V2W2X2M2M3[0001022M042M0607280a2M2;2<2=2>2?0@0A0B2C0D2E2F0G2H2I2J0K2M2M0D2O2P2Q2R2S2T2U2V2W2X2M2M3[0001022M042M0607280b2M0;2<2=2>2?0@0A0B2C2D2E2F0G2H2I2J0K2M2M2D2O2P2Q2R2S2T2U2V2W2X2M2M3[0001020c040M060708090c0;0<0=0>2?0@0A0B0C0D0E0F0G0H0I0J0K0M0M0D0O0P0Q0R0S0T0U0V0W0X0M0M3[0001020d042M060708090d2;0<2=0>2?0@0A0B0C0D2E0F0G2H2I2J0K2M2M0D2O2P2Q2R2S2T2U2V2W2X2M2M3[";

#[test]
fn reads_pair_table() {
    let rows = read_pair_table(&chars_of(TABLES)).unwrap();
    assert_eq!(rows.len(), 53);
    assert!(rows.iter().all(|r| r.len() == 44));
    assert_eq!(&rows[0][..4], &[192, 193, 194, 221]);
    assert_eq!(rows[52][43], 235);
}

#[test]
fn reads_constants() {
    let shared = chars_of(SHARED);
    assert_eq!(read_byte_constant(&shared, "const eot: u8 = "), Some(43));
    assert_eq!(read_byte_constant(&shared, "const sot: u8 = "), Some(44));
    assert_eq!(read_byte_constant(&shared, "const nothing: u8 = "), None);
}

#[test]
fn reads_safe_pairs() {
    let safe = read_safe_pairs(&chars_of(SHARED), &chars_of(TABLES)).unwrap();
    assert_eq!(safe.len(), 43);
    assert!(safe.iter().all(|r| r.len() == 43));
    let unsafe_count = safe.iter().flatten().filter(|b| !**b).count();
    assert_eq!(unsafe_count, 150);
    // (CM, CM), (SP, WJ), (HY, XX) are listed; (AL, AL) is not.
    assert!(!safe[3][3]);
    assert!(!safe[9][6]);
    assert!(!safe[14][42]);
    assert!(safe[29][29]);
}

#[test]
fn tables_from_crate_source() {
    let text = tables_from_source("-- notice\n", "-- header", SHARED, TABLES).unwrap();
    let shared = chars_of(SHARED);
    let tabs = chars_of(TABLES);
    let rows = read_pair_table(&tabs).unwrap();
    let safe = read_safe_pairs(&shared, &tabs).unwrap();
    assert_eq!(text, tables("-- notice\n", "-- header", &rows, 43, 44, &safe));
    assert!(text.contains("-- The state machine: 53 rows, one per state, of 44 entries"));
    assert!(text.contains("start state is 44.\n"));
    let pairs_part = text.split("@pub(pkg) def pairs =\n  \"").nth(1).unwrap();
    let pairs_lit: String = pairs_part.split('"').next().unwrap().replace("\\\n    ", "");
    assert_eq!(pairs_lit, PAIR_DIGITS);
}

#[test]
fn incomplete_source_is_refused() {
    assert!(tables_from_source("", "", SHARED, "").is_none());
    assert!(tables_from_source("", "", "", TABLES).is_none());
    let other_eot = SHARED.replace("const eot: u8 = 43;", "const eot: u8 = 42;");
    assert!(tables_from_source("", "", &other_eot, TABLES).is_none());
    let too_big = TABLES.replacen("[[192,", "[[292,", 1);
    assert!(read_pair_table(&chars_of(&too_big)).is_none());
}

/// The `lib.rs` of unicode-linebreak 0.1.5: the driver that the tables were
/// written for.
const LIB: &str = "//! Implementation of the Line Breaking Algorithm described in [Unicode Standard Annex #14][UAX14].\n//!\n//! Given an input text, locates \"line break opportunities\", or positions appropriate for wrapping\n//! lines when displaying text.\n//!\n//! # Example\n//!\n//! ```\n//! use unicode_linebreak::{linebreaks, BreakOpportunity::{Mandatory, Allowed}};\n//!\n//! let text = \"a b \\nc\";\n//! assert!(linebreaks(text).eq([\n//!     (2, Allowed),   // May break after first space\n//!     (5, Mandatory), // Must break after line feed\n//!     (6, Mandatory)  // Must break at end of text, so that there always is at least one LB\n//! ]));\n//! ```\n//!\n//! [UAX14]: https://www.unicode.org/reports/tr14/\n\n#![no_std]\n#![deny(missing_docs, missing_debug_implementations)]\n\nuse core::iter::once;\n\n/// The [Unicode version](https://www.unicode.org/versions/) conformed to.\npub const UNICODE_VERSION: (u8, u8, u8) = (15, 0, 0);\n\ninclude!(\"shared.rs\");\ninclude!(\"tables.rs\");\n\n/// Returns the line break property of the specified code point.\n///\n/// # Examples\n///\n/// ```\n/// use unicode_linebreak::{BreakClass, break_property};\n/// assert_eq!(break_property(0x2CF3), BreakClass::Alphabetic);\n/// ```\n#[inline(always)]\npub fn break_property(codepoint: u32) -> BreakClass {\n    const BMP_INDEX_LENGTH: u32 = BMP_LIMIT >> BMP_SHIFT;\n    const OMITTED_BMP_INDEX_1_LENGTH: u32 = BMP_LIMIT >> SHIFT_1;\n\n    let data_pos = if codepoint < BMP_LIMIT {\n        let i = codepoint >> BMP_SHIFT;\n        BREAK_PROP_TRIE_INDEX[i as usize] + (codepoint & (BMP_DATA_BLOCK_LENGTH - 1)) as u16\n    } else if codepoint < BREAK_PROP_TRIE_HIGH_START {\n        let i1 = codepoint >> SHIFT_1;\n        let i2 = BREAK_PROP_TRIE_INDEX\n            [(i1 + BMP_INDEX_LENGTH - OMITTED_BMP_INDEX_1_LENGTH) as usize]\n            + ((codepoint >> SHIFT_2) & (INDEX_2_BLOCK_LENGTH - 1)) as u16;\n        let i3_block = BREAK_PROP_TRIE_INDEX[i2 as usize];\n        let i3_pos = ((codepoint >> SHIFT_3) & (INDEX_3_BLOCK_LENGTH - 1)) as u16;\n\n        debug_assert!(i3_block & 0x8000 == 0, \"18-bit indices are unexpected\");\n        let data_block = BREAK_PROP_TRIE_INDEX[(i3_block + i3_pos) as usize];\n        data_block + (codepoint & (SMALL_DATA_BLOCK_LENGTH - 1)) as u16\n    } else {\n        return XX;\n    };\n    BREAK_PROP_TRIE_DATA[data_pos as usize]\n}\n\n/// Break opportunity type.\n#[derive(Copy, Clone, PartialEq, Eq, Debug)]\npub enum BreakOpportunity {\n    /// A line must break at this spot.\n    Mandatory,\n    /// A line is allowed to end at this spot.\n    Allowed,\n}\n\n/// Returns an iterator over line break opportunities in the specified string.\n///\n/// Break opportunities are given as tuples of the byte index of the character succeeding the break\n/// and the type.\n///\n/// Uses the default Line Breaking Algorithm with the tailoring that Complex-Context Dependent\n/// (SA) characters get resolved to Ordinary Alphabetic and Symbol Characters (AL) regardless of\n/// General_Category.\n///\n/// # Examples\n///\n/// ```\n/// use unicode_linebreak::{linebreaks, BreakOpportunity::{Mandatory, Allowed}};\n/// assert!(linebreaks(\"Hello world!\").eq(vec![(6, Allowed), (12, Mandatory)]));\n/// ```\npub fn linebreaks(s: &str) -> impl Iterator<Item = (usize, BreakOpportunity)> + Clone + '_ {\n    use BreakOpportunity::{Allowed, Mandatory};\n\n    s.char_indices()\n        .map(|(i, c)| (i, break_property(c as u32) as u8))\n        .chain(once((s.len(), eot)))\n        .scan((sot, false), |state, (i, cls)| {\n            // ZWJ is handled outside the table to reduce its size\n            let val = PAIR_TABLE[state.0 as usize][cls as usize];\n            let is_mandatory = val & MANDATORY_BREAK_BIT != 0;\n            let is_break = val & ALLOWED_BREAK_BIT != 0 && (!state.1 || is_mandatory);\n            *state = (\n                val & !(ALLOWED_BREAK_BIT | MANDATORY_BREAK_BIT),\n                cls == BreakClass::ZeroWidthJoiner as u8,\n            );\n\n            Some((i, is_break, is_mandatory))\n        })\n        .filter_map(|(i, is_break, is_mandatory)| {\n            if is_break {\n                Some((i, if is_mandatory { Mandatory } else { Allowed }))\n            } else {\n                None\n            }\n        })\n}\n\n/// Divides the string at the last index where further breaks do not depend on prior context.\n///\n/// The trivial index at `eot` is excluded.\n///\n/// A common optimization is to determine only the nearest line break opportunity before the first\n/// character that would cause the line to become overfull, requiring backward traversal, of which\n/// there are two approaches:\n///\n/// * Cache breaks from forward traversals\n/// * Step backward and with `split_at_safe` find a pos to safely search forward from, repeatedly\n///\n/// # Examples\n///\n/// ```\n/// use unicode_linebreak::{linebreaks, split_at_safe};\n/// let s = \"Not allowed to break within em dashes: \u{2014} \u{2014}\";\n/// let (prev, safe) = split_at_safe(s);\n/// let n = prev.len();\n/// assert!(linebreaks(safe).eq(linebreaks(s).filter_map(|(i, x)| i.checked_sub(n).map(|i| (i, x)))));\n/// ```\npub fn split_at_safe(s: &str) -> (&str, &str) {\n    let mut chars = s.char_indices().rev().scan(None, |state, (i, c)| {\n        let cls = break_property(c as u32);\n        let is_safe_pair = state\n            .replace(cls)\n            .map_or(false, |prev| is_safe_pair(cls, prev)); // Reversed since iterating backwards\n        Some((i, is_safe_pair))\n    });\n    chars.find(|&(_, is_safe_pair)| is_safe_pair);\n    // Include preceding char for `linebreaks` to pick up break before match (disallowed after sot)\n    s.split_at(chars.next().map_or(0, |(i, _)| i))\n}\n\n#[cfg(test)]\nmod tests {\n    use super::*;\n\n    #[test]\n    fn it_works() {\n        assert_eq!(break_property(0xA), BreakClass::LineFeed);\n        assert_eq!(break_property(0xDB80), BreakClass::Surrogate);\n        assert_eq!(break_property(0xe01ef), BreakClass::CombiningMark);\n        assert_eq!(break_property(0x10ffff), BreakClass::Unknown);\n    }\n}\n";

#[test]
fn driver_of_the_pinned_crate_is_unchanged() {
    assert!(driver_unchanged(LIB));
    assert!(!driver_unchanged(&LIB.replace("is_mandatory", "mandatory")));
}

#[test]
fn find_and_section() {
    let s = chars_of("const eot: u8 = 43; const sot: u8 = 44;");
    assert_eq!(find(&s, &chars_of("u8"), 0), Some(11));
    assert_eq!(find(&s, &chars_of("u8"), 12), Some(31));
    assert_eq!(find(&s, &chars_of("u16"), 0), None);
    assert_eq!(find(&s, &chars_of(""), 3), Some(3));
    let v = section_of(&s, &chars_of("sot: "), &chars_of(";")).unwrap();
    assert_eq!(v.iter().collect::<String>(), "u8 = 44");
    assert!(section_of(&s, &chars_of("xyz"), &chars_of(";")).is_none());
    assert!(section_of(&s, &chars_of("44"), &chars_of(";;")).is_none());
}

#[test]
fn words_of_text() {
    let s = chars_of("(CM, SP)|(ZWJ, B2) 12,345;u8 7");
    let idents: Vec<String> = words_of(&s, true).iter().map(|w| w.iter().collect()).collect();
    assert_eq!(idents, vec!["CM", "SP", "ZWJ", "B2", "12", "345", "u8", "7"]);
    let numbers: Vec<String> = words_of(&s, false).iter().map(|w| w.iter().collect()).collect();
    assert_eq!(numbers, vec!["2", "12", "345", "8", "7"]);
    assert!(words_of(&chars_of(""), true).is_empty());
}
