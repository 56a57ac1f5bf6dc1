use hawk512::keys::{is_aligned, verify_hash, verify_hash_prepared};
use hawk512::codec::{compute_hpub, compute_m, decode_public, decode_signature};
use hawk512::program::{
    account_present, instruction_offset, invalid_instruction, process_instruction, Account,
    Outcome,
};
use hawk512::{
    HawkError, Hawk512PreparedPubkey, Hawk512Pubkey, Hawk512Signature,
    HAWK_512_PREPARED_PUBKEY_LEN, HAWK_512_PUBKEY_LEN, HAWK_512_SIGNATURE_LEN, HIGH_00, HIGH_01,
    HIGH_S0, HIGH_S1, HPUB_LEN, LOGN, LOW_00, LOW_01, LOW_S1, N, PUBKEY_LEN, SALT_LEN,
    SIGNATURE_LEN,
};
use solana_program_error::ProgramError;
use solana_shake256::Shake256;

// Keys from short matrices of determinant one, each with a signature.
const PK_0: [u8; 1024] = [
    80, 167, 76, 225, 129, 114, 172, 37, 192, 171, 221, 236, 119, 12, 73, 47, 120, 152, 216, 209,
    91, 1, 220, 34, 98, 51, 244, 118, 158, 158, 199, 17, 8, 21, 155, 16, 105, 202, 181, 51,
    1, 25, 232, 141, 17, 202, 132, 211, 171, 44, 149, 122, 2, 57, 215, 122, 209, 205, 68, 239,
    206, 132, 2, 161, 18, 192, 213, 160, 100, 48, 196, 16, 77, 0, 77, 38, 213, 96, 113, 0,
    207, 43, 163, 153, 96, 245, 48, 35, 138, 252, 55, 25, 105, 96, 180, 130, 81, 128, 140, 36,
    99, 72, 190, 0, 106, 134, 39, 252, 38, 138, 8, 172, 120, 48, 119, 138, 35, 47, 29, 54,
    168, 22, 91, 84, 64, 135, 115, 193, 206, 131, 223, 199, 106, 185, 44, 85, 168, 197, 187, 232,
    84, 173, 22, 234, 112, 96, 86, 200, 240, 102, 62, 210, 149, 21, 216, 6, 12, 132, 117, 82,
    139, 232, 167, 22, 86, 187, 59, 165, 8, 215, 173, 28, 166, 164, 209, 201, 248, 65, 52, 41,
    52, 135, 202, 214, 128, 30, 2, 106, 193, 128, 64, 112, 125, 186, 204, 125, 187, 246, 171, 158,
    189, 94, 251, 36, 191, 247, 217, 222, 119, 221, 87, 110, 223, 246, 250, 183, 247, 239, 117, 222,
    126, 127, 119, 171, 239, 246, 215, 219, 125, 245, 251, 255, 223, 244, 123, 166, 0, 172, 28, 67,
    63, 226, 63, 28, 183, 169, 239, 82, 1, 210, 128, 157, 67, 142, 15, 154, 112, 117, 74, 242,
    22, 226, 161, 113, 157, 50, 37, 97, 3, 9, 98, 39, 128, 49, 41, 193, 32, 92, 96, 47,
    64, 154, 148, 224, 160, 148, 40, 150, 16, 236, 68, 46, 60, 34, 185, 29, 233, 43, 168, 87,
    240, 251, 161, 112, 65, 80, 11, 56, 42, 66, 88, 96, 64, 149, 148, 100, 79, 75, 69, 131,
    244, 36, 48, 143, 32, 140, 211, 25, 178, 47, 35, 203, 251, 177, 213, 114, 115, 83, 60, 180,
    83, 218, 236, 139, 105, 202, 76, 58, 218, 20, 15, 226, 144, 250, 136, 234, 66, 188, 108, 108,
    225, 80, 33, 173, 42, 139, 136, 129, 159, 242, 29, 143, 154, 106, 126, 0, 187, 249, 112, 135,
    153, 36, 33, 103, 208, 217, 24, 239, 24, 32, 198, 153, 136, 164, 150, 179, 165, 9, 64, 235,
    250, 61, 162, 15, 61, 104, 31, 230, 186, 4, 5, 105, 221, 17, 216, 62, 207, 172, 137, 34,
    253, 182, 121, 247, 75, 13, 187, 16, 101, 36, 4, 185, 227, 12, 216, 202, 31, 105, 241, 134,
    178, 141, 196, 23, 58, 250, 10, 65, 189, 146, 166, 163, 146, 130, 97, 190, 198, 17, 51, 223,
    220, 235, 158, 95, 92, 64, 187, 0, 11, 223, 17, 123, 181, 229, 18, 14, 146, 22, 226, 28,
    50, 105, 185, 138, 248, 123, 157, 50, 113, 73, 209, 72, 172, 246, 28, 4, 72, 29, 108, 235,
    69, 213, 81, 38, 161, 16, 146, 210, 48, 84, 142, 72, 101, 85, 39, 236, 56, 41, 178, 231,
    211, 44, 21, 80, 88, 80, 142, 238, 60, 96, 50, 105, 140, 215, 173, 160, 0, 63, 126, 53,
    114, 205, 186, 109, 8, 251, 67, 90, 131, 242, 136, 32, 240, 11, 95, 146, 27, 132, 42, 77,
    7, 180, 74, 76, 52, 200, 248, 77, 128, 113, 59, 211, 66, 201, 202, 225, 158, 176, 135, 77,
    212, 81, 161, 83, 248, 141, 65, 36, 216, 1, 253, 186, 228, 125, 38, 141, 76, 79, 39, 78,
    34, 51, 182, 245, 113, 13, 132, 185, 214, 30, 126, 177, 141, 135, 232, 17, 30, 129, 140, 192,
    48, 34, 22, 8, 40, 194, 44, 229, 123, 70, 200, 229, 63, 27, 76, 115, 205, 59, 127, 67,
    166, 50, 17, 195, 40, 212, 77, 226, 129, 127, 112, 89, 38, 83, 80, 243, 101, 57, 21, 214,
    9, 110, 116, 230, 53, 6, 204, 209, 145, 19, 63, 195, 101, 179, 217, 209, 231, 170, 182, 60,
    39, 239, 136, 254, 143, 237, 195, 94, 154, 240, 204, 155, 101, 50, 2, 218, 156, 40, 204, 164,
    51, 145, 230, 127, 61, 176, 207, 95, 16, 116, 207, 218, 197, 62, 53, 49, 218, 88, 233, 112,
    214, 7, 199, 168, 181, 172, 49, 173, 233, 62, 87, 138, 96, 160, 168, 57, 48, 225, 47, 216,
    141, 22, 89, 19, 93, 4, 81, 141, 87, 18, 127, 161, 244, 97, 189, 117, 66, 108, 129, 12,
    163, 89, 135, 81, 245, 40, 104, 14, 16, 152, 112, 144, 14, 156, 205, 169, 163, 240, 250, 65,
    237, 20, 138, 68, 18, 5, 8, 230, 249, 120, 188, 226, 181, 55, 70, 69, 77, 232, 18, 220,
    212, 181, 52, 135, 125, 11, 99, 81, 41, 146, 222, 122, 63, 140, 237, 47, 156, 236, 132, 180,
    244, 72, 74, 119, 231, 70, 152, 27, 14, 77, 147, 171, 165, 96, 236, 138, 190, 68, 100, 174,
    250, 26, 103, 88, 162, 16, 35, 69, 99, 47, 140, 52, 232, 221, 241, 96, 198, 102, 57, 118,
    158, 184, 206, 144, 189, 78, 82, 3, 145, 30, 46, 0, 248, 91, 236, 247, 77, 235, 255, 255,
    221, 255, 255, 253, 253, 127, 255, 255, 254, 255, 255, 223, 255, 191, 125, 255, 223, 255, 127, 223,
    111, 223, 255, 251, 222, 250, 95, 255, 255, 255, 219, 255, 254, 174, 255, 191, 173, 255, 187, 221,
    255, 191, 255, 251, 255, 253, 191, 239, 93, 223, 125, 187, 255, 251, 218, 255, 221, 127, 253, 111,
    255, 253, 127, 239, 247, 255, 189, 253, 219, 125, 1, 0, 0, 0, 0, 0, 0, 0, 0, 0,
    0, 0, 0, 0, 0, 0, 0, 0, 0, 0, 0, 0, 0, 0, 0, 0, 0, 0, 0, 0,
    0, 0, 0, 0, 0, 0, 0, 0, 0, 0, 0, 0, 0, 0, 0, 0, 0, 0, 0, 0,
    0, 0, 0, 0, 0, 0, 0, 0, 0, 0, 0, 0, 0, 0, 0, 0, 0, 0, 0, 0,
    0, 0, 0, 0,
];

const SIG_0: [u8; 555] = [
    218, 234, 249, 244, 133, 200, 90, 51, 28, 209, 254, 92, 140, 141, 250, 65, 154, 233, 240, 136,
    160, 168, 96, 174, 97, 26, 72, 211, 32, 187, 161, 30, 238, 39, 165, 29, 224, 22, 159, 252,
    231, 40, 242, 148, 128, 38, 36, 33, 207, 1, 113, 134, 84, 30, 132, 85, 235, 85, 106, 157,
    210, 230, 220, 164, 20, 136, 75, 227, 225, 180, 80, 153, 29, 140, 90, 40, 112, 31, 48, 47,
    147, 96, 146, 163, 24, 75, 205, 239, 106, 36, 48, 136, 24, 3, 0, 158, 112, 17, 98, 184,
    3, 43, 53, 203, 140, 86, 81, 28, 34, 168, 129, 89, 66, 116, 2, 144, 226, 74, 204, 196,
    69, 194, 16, 13, 128, 32, 150, 123, 114, 29, 49, 21, 101, 162, 61, 3, 0, 168, 64, 176,
    99, 144, 26, 35, 52, 225, 132, 72, 106, 84, 81, 84, 65, 138, 68, 113, 208, 107, 247, 144,
    66, 197, 60, 162, 49, 195, 12, 156, 104, 136, 20, 228, 24, 194, 61, 165, 2, 56, 128, 52,
    244, 114, 58, 108, 18, 49, 14, 73, 38, 141, 37, 196, 49, 226, 48, 17, 105, 48, 67, 16,
    98, 151, 56, 48, 160, 243, 66, 144, 102, 1, 75, 200, 90, 136, 49, 216, 147, 32, 39, 204,
    3, 68, 156, 65, 0, 112, 150, 56, 149, 142, 5, 14, 137, 237, 136, 231, 28, 59, 38, 25,
    182, 70, 93, 9, 197, 6, 16, 192, 235, 160, 196, 218, 57, 36, 9, 88, 122, 0, 120, 196,
    6, 6, 19, 64, 28, 96, 70, 75, 156, 1, 86, 222, 145, 70, 96, 94, 150, 108, 237, 24,
    211, 170, 66, 131, 4, 49, 160, 105, 133, 24, 99, 12, 138, 172, 37, 34, 10, 72, 198, 145,
    242, 206, 67, 181, 56, 231, 90, 8, 236, 173, 4, 76, 72, 78, 40, 35, 132, 74, 5, 161,
    1, 32, 28, 39, 49, 36, 14, 105, 233, 33, 25, 68, 56, 229, 56, 145, 96, 59, 96, 153,
    122, 138, 52, 2, 185, 247, 80, 48, 2, 213, 64, 106, 39, 59, 8, 242, 228, 33, 92, 168,
    38, 0, 44, 237, 12, 2, 196, 49, 194, 36, 36, 134, 64, 102, 32, 118, 8, 137, 108, 0,
    244, 146, 107, 237, 80, 206, 64, 201, 47, 141, 71, 4, 107, 245, 132, 154, 20, 136, 219, 24,
    0, 171, 48, 53, 36, 197, 14, 120, 255, 255, 255, 255, 255, 255, 255, 255, 255, 255, 255, 255,
    255, 255, 255, 255, 255, 255, 255, 255, 255, 255, 127, 255, 255, 255, 255, 255, 255, 255, 255, 255,
    255, 255, 255, 255, 255, 255, 255, 255, 255, 255, 255, 255, 255, 255, 255, 255, 255, 255, 255, 255,
    255, 255, 255, 255, 255, 255, 255, 255, 255, 255, 255, 255, 1, 0, 0, 0, 0, 0, 0, 0,
    0, 0, 0, 0, 0, 0, 0, 0, 0, 0, 0, 0, 0, 0, 0, 0, 0, 0, 0, 0,
    0, 0, 0, 0, 0, 0, 0, 0, 0, 0, 0, 0, 0, 0, 0, 0, 0, 0, 0, 0,
    0, 0, 0, 0, 0, 0, 0, 0, 0, 0, 0, 0, 0, 0, 0, 0, 0, 0, 0, 0,
    0, 0, 0, 0, 0, 0, 0, 0, 0, 0, 0, 0, 0, 0, 0,
];

const PK_1: [u8; 1024] = [
    228, 25, 7, 171, 182, 50, 115, 106, 140, 76, 186, 124, 154, 65, 87, 125, 36, 90, 124, 173,
    143, 5, 224, 160, 210, 127, 222, 140, 29, 217, 193, 43, 104, 61, 109, 44, 152, 104, 22, 127,
    170, 35, 48, 129, 183, 92, 32, 135, 217, 183, 135, 42, 79, 197, 73, 206, 227, 159, 1, 208,
    196, 30, 89, 131, 52, 219, 225, 57, 84, 211, 134, 221, 194, 149, 94, 67, 30, 131, 179, 227,
    236, 60, 67, 148, 164, 225, 130, 34, 144, 232, 249, 240, 189, 251, 153, 132, 168, 189, 87, 170,
    108, 126, 164, 2, 0, 66, 152, 42, 161, 21, 166, 17, 175, 176, 197, 21, 0, 201, 149, 186,
    125, 177, 241, 86, 22, 248, 44, 47, 130, 242, 202, 157, 82, 140, 141, 104, 250, 7, 3, 2,
    197, 168, 199, 205, 145, 4, 156, 215, 8, 11, 111, 2, 206, 223, 225, 18, 110, 249, 218, 201,
    224, 60, 68, 45, 86, 25, 3, 252, 4, 64, 148, 201, 192, 46, 174, 81, 118, 210, 12, 103,
    103, 249, 242, 176, 163, 87, 39, 214, 12, 18, 153, 202, 219, 86, 247, 250, 84, 189, 253, 239,
    181, 234, 218, 219, 102, 75, 251, 251, 234, 252, 255, 87, 99, 91, 203, 103, 247, 254, 191, 253,
    170, 239, 78, 155, 253, 251, 220, 247, 252, 191, 222, 253, 255, 213, 246, 55, 1, 88, 65, 223,
    157, 240, 110, 22, 104, 62, 202, 47, 219, 176, 207, 10, 155, 236, 150, 204, 31, 227, 76, 115,
    247, 50, 0, 159, 203, 135, 93, 149, 97, 126, 244, 104, 231, 154, 22, 131, 43, 249, 214, 170,
    118, 136, 218, 137, 38, 100, 65, 82, 28, 44, 85, 211, 82, 204, 35, 109, 240, 156, 63, 110,
    46, 67, 205, 187, 184, 244, 72, 13, 117, 119, 62, 110, 63, 79, 157, 81, 218, 203, 9, 8,
    199, 17, 0, 204, 68, 193, 91, 73, 58, 142, 175, 230, 160, 83, 135, 230, 133, 102, 136, 60,
    47, 168, 135, 235, 104, 62, 86, 66, 81, 49, 215, 85, 164, 67, 215, 176, 108, 170, 207, 17,
    185, 159, 156, 19, 133, 179, 67, 228, 112, 234, 120, 24, 43, 217, 94, 94, 204, 188, 219, 223,
    54, 51, 88, 25, 170, 194, 94, 229, 137, 70, 121, 78, 2, 53, 69, 69, 45, 214, 196, 223,
    65, 6, 221, 135, 234, 131, 103, 165, 16, 93, 69, 204, 200, 208, 240, 252, 212, 186, 72, 2,
    194, 91, 85, 170, 57, 134, 41, 34, 116, 45, 115, 226, 17, 145, 15, 178, 243, 146, 98, 59,
    48, 98, 5, 231, 144, 24, 116, 8, 168, 131, 136, 6, 186, 236, 220, 136, 25, 220, 117, 29,
    96, 105, 189, 18, 81, 16, 102, 213, 185, 58, 6, 75, 47, 70, 25, 65, 142, 102, 41, 91,
    198, 60, 169, 41, 224, 139, 76, 36, 174, 24, 29, 225, 106, 141, 235, 10, 176, 39, 17, 59,
    248, 14, 218, 45, 250, 90, 146, 158, 88, 17, 202, 185, 205, 225, 81, 231, 97, 78, 204, 80,
    176, 144, 134, 195, 210, 18, 15, 240, 65, 56, 247, 37, 126, 171, 124, 91, 204, 201, 136, 186,
    98, 111, 202, 215, 208, 113, 86, 178, 56, 111, 134, 86, 230, 157, 176, 110, 185, 173, 161, 78,
    10, 28, 127, 153, 74, 16, 90, 42, 165, 144, 75, 166, 47, 179, 68, 209, 91, 223, 209, 170,
    6, 199, 128, 43, 234, 167, 250, 185, 23, 58, 158, 21, 155, 111, 35, 5, 250, 62, 155, 225,
    53, 115, 75, 225, 213, 212, 90, 38, 110, 103, 84, 83, 87, 84, 26, 143, 118, 123, 166, 217,
    109, 44, 100, 46, 107, 25, 164, 12, 146, 197, 140, 208, 41, 128, 13, 233, 41, 0, 137, 173,
    90, 22, 63, 175, 89, 185, 16, 36, 227, 99, 55, 199, 75, 190, 194, 89, 201, 220, 65, 125,
    130, 70, 142, 133, 99, 110, 133, 225, 49, 20, 94, 36, 178, 163, 87, 156, 16, 41, 103, 163,
    141, 141, 185, 242, 10, 215, 147, 187, 103, 224, 125, 120, 64, 225, 42, 134, 115, 149, 235, 8,
    116, 28, 215, 13, 15, 55, 206, 84, 165, 155, 99, 200, 40, 155, 30, 166, 131, 22, 109, 56,
    118, 224, 90, 166, 16, 70, 142, 91, 242, 107, 108, 187, 109, 248, 32, 93, 252, 24, 162, 100,
    104, 116, 38, 162, 154, 168, 129, 39, 87, 25, 227, 242, 175, 235, 146, 138, 39, 88, 25, 25,
    219, 209, 117, 156, 2, 48, 84, 5, 2, 110, 253, 87, 171, 220, 194, 64, 48, 26, 211, 163,
    242, 149, 99, 251, 140, 207, 86, 255, 200, 38, 20, 206, 114, 143, 25, 21, 58, 75, 41, 59,
    245, 124, 113, 98, 19, 5, 109, 131, 134, 181, 180, 129, 165, 13, 184, 228, 53, 175, 211, 128,
    231, 71, 167, 104, 72, 190, 38, 173, 230, 151, 39, 230, 6, 23, 139, 145, 91, 71, 59, 132,
    19, 139, 66, 168, 105, 245, 238, 35, 186, 235, 190, 167, 170, 132, 118, 70, 155, 19, 117, 91,
    108, 3, 99, 23, 1, 24, 33, 57, 119, 14, 128, 56, 167, 232, 250, 111, 168, 247, 254, 239,
    254, 187, 255, 255, 247, 255, 255, 223, 123, 255, 239, 247, 127, 255, 95, 255, 255, 251, 255, 255,
    255, 255, 255, 221, 125, 247, 253, 255, 171, 111, 191, 247, 255, 125, 255, 255, 247, 183, 239, 189,
    223, 183, 127, 255, 255, 253, 247, 255, 235, 255, 223, 191, 255, 223, 191, 223, 253, 247, 223, 255,
    235, 251, 254, 253, 255, 255, 255, 255, 3, 0, 0, 0, 0, 0, 0, 0, 0, 0, 0, 0,
    0, 0, 0, 0, 0, 0, 0, 0, 0, 0, 0, 0, 0, 0, 0, 0, 0, 0, 0, 0,
    0, 0, 0, 0, 0, 0, 0, 0, 0, 0, 0, 0, 0, 0, 0, 0, 0, 0, 0, 0,
    0, 0, 0, 0, 0, 0, 0, 0, 0, 0, 0, 0, 0, 0, 0, 0, 0, 0, 0, 0,
    0, 0, 0, 0,
];

const SIG_1: [u8; 555] = [
    20, 34, 178, 254, 75, 159, 39, 205, 186, 34, 198, 143, 64, 109, 78, 66, 88, 220, 247, 167,
    2, 139, 119, 78, 119, 136, 19, 201, 52, 193, 134, 17, 119, 140, 35, 192, 20, 236, 131, 38,
    248, 102, 179, 68, 174, 216, 217, 220, 129, 170, 254, 33, 114, 180, 30, 215, 11, 123, 32, 89,
    212, 130, 92, 202, 41, 252, 176, 64, 194, 45, 34, 217, 22, 144, 17, 35, 217, 62, 217, 114,
    201, 36, 17, 160, 244, 121, 246, 204, 37, 215, 232, 202, 50, 51, 36, 101, 204, 41, 226, 197,
    41, 133, 24, 101, 30, 214, 193, 90, 228, 160, 74, 214, 64, 227, 172, 35, 33, 5, 39, 0,
    53, 200, 64, 15, 80, 67, 254, 74, 2, 95, 133, 176, 74, 67, 181, 5, 212, 8, 10, 28,
    78, 83, 195, 32, 21, 45, 136, 53, 204, 176, 227, 132, 113, 73, 14, 2, 75, 114, 129, 140,
    194, 222, 96, 196, 205, 2, 131, 161, 0, 63, 98, 137, 32, 193, 52, 212, 128, 33, 96, 201,
    243, 76, 16, 66, 205, 35, 22, 60, 196, 216, 197, 216, 72, 21, 54, 105, 144, 80, 192, 176,
    85, 6, 32, 225, 176, 81, 194, 145, 99, 10, 2, 140, 202, 7, 9, 146, 136, 35, 194, 9,
    51, 128, 61, 8, 176, 20, 50, 1, 170, 4, 65, 16, 117, 193, 144, 19, 38, 57, 69, 68,
    65, 4, 0, 172, 128, 37, 82, 59, 140, 37, 21, 8, 138, 51, 155, 144, 234, 8, 166, 77,
    163, 162, 57, 129, 161, 132, 78, 8, 37, 227, 43, 10, 40, 189, 172, 4, 210, 150, 169, 84,
    121, 70, 73, 145, 140, 66, 50, 15, 238, 186, 33, 30, 24, 21, 204, 0, 0, 1, 70, 53,
    81, 98, 24, 76, 185, 5, 134, 108, 3, 133, 228, 16, 2, 192, 37, 0, 8, 136, 164, 128,
    36, 146, 97, 33, 17, 36, 198, 138, 207, 196, 52, 17, 32, 32, 72, 38, 140, 168, 64, 196,
    240, 202, 83, 102, 111, 67, 78, 90, 167, 37, 208, 208, 32, 0, 64, 192, 92, 16, 100, 166,
    0, 25, 60, 2, 156, 28, 14, 89, 97, 153, 40, 204, 178, 40, 1, 162, 208, 106, 39, 180,
    3, 7, 19, 76, 129, 219, 204, 42, 226, 68, 68, 135, 16, 164, 9, 178, 64, 10, 173, 24,
    193, 10, 33, 25, 24, 20, 0, 36, 255, 255, 255, 255, 255, 255, 255, 255, 255, 255, 255, 255,
    255, 255, 255, 255, 255, 255, 127, 255, 255, 255, 255, 255, 255, 255, 255, 255, 255, 253, 255, 255,
    255, 255, 255, 255, 255, 255, 255, 255, 255, 255, 255, 255, 255, 255, 255, 255, 255, 255, 255, 255,
    255, 255, 255, 255, 255, 255, 255, 253, 254, 255, 255, 255, 15, 0, 0, 0, 0, 0, 0, 0,
    0, 0, 0, 0, 0, 0, 0, 0, 0, 0, 0, 0, 0, 0, 0, 0, 0, 0, 0, 0,
    0, 0, 0, 0, 0, 0, 0, 0, 0, 0, 0, 0, 0, 0, 0, 0, 0, 0, 0, 0,
    0, 0, 0, 0, 0, 0, 0, 0, 0, 0, 0, 0, 0, 0, 0, 0, 0, 0, 0, 0,
    0, 0, 0, 0, 0, 0, 0, 0, 0, 0, 0, 0, 0, 0, 0,
];

const PK_2: [u8; 1024] = [
    146, 186, 105, 129, 255, 227, 166, 237, 78, 26, 107, 73, 101, 102, 79, 45, 75, 207, 215, 113,
    73, 175, 139, 141, 101, 101, 29, 209, 241, 175, 43, 129, 72, 109, 128, 69, 88, 29, 12, 150,
    93, 34, 115, 21, 130, 192, 50, 249, 13, 203, 196, 96, 102, 161, 70, 3, 174, 5, 138, 12,
    145, 24, 246, 164, 22, 73, 179, 220, 139, 162, 230, 73, 12, 215, 209, 195, 35, 45, 176, 131,
    226, 10, 13, 149, 93, 218, 26, 99, 150, 92, 128, 208, 174, 216, 98, 72, 9, 15, 169, 66,
    72, 88, 6, 159, 0, 225, 146, 18, 111, 151, 26, 17, 142, 165, 161, 98, 78, 230, 3, 64,
    196, 154, 133, 33, 15, 78, 176, 160, 72, 132, 170, 152, 203, 162, 229, 8, 208, 217, 17, 3,
    73, 11, 181, 128, 15, 19, 84, 195, 93, 132, 150, 236, 140, 213, 1, 10, 192, 244, 37, 53,
    36, 139, 162, 177, 92, 218, 40, 119, 140, 231, 217, 80, 49, 3, 34, 132, 52, 62, 98, 39,
    24, 152, 12, 137, 117, 99, 215, 218, 140, 101, 177, 24, 125, 235, 91, 57, 223, 189, 86, 221,
    237, 239, 183, 242, 221, 191, 121, 105, 239, 127, 93, 123, 243, 247, 86, 245, 181, 219, 247, 245,
    237, 190, 247, 165, 234, 234, 90, 231, 223, 94, 251, 253, 79, 108, 189, 151, 213, 62, 13, 88,
    247, 167, 139, 95, 100, 53, 149, 129, 18, 131, 87, 91, 15, 39, 41, 74, 211, 147, 198, 84,
    201, 83, 55, 22, 189, 188, 56, 64, 104, 208, 244, 253, 249, 97, 227, 197, 148, 88, 143, 154,
    28, 103, 103, 116, 135, 148, 1, 223, 13, 5, 216, 138, 194, 3, 25, 83, 251, 166, 134, 217,
    18, 218, 197, 76, 10, 218, 81, 123, 214, 50, 183, 136, 22, 16, 244, 69, 184, 185, 182, 84,
    208, 152, 111, 102, 208, 228, 218, 47, 80, 192, 70, 237, 174, 73, 128, 74, 98, 144, 30, 58,
    49, 54, 156, 173, 1, 172, 246, 4, 158, 163, 207, 131, 133, 38, 185, 214, 11, 83, 112, 87,
    255, 144, 101, 53, 103, 6, 184, 235, 72, 119, 193, 137, 234, 132, 18, 110, 153, 6, 34, 169,
    14, 32, 129, 204, 228, 117, 82, 249, 125, 69, 2, 238, 39, 76, 174, 48, 31, 3, 74, 173,
    93, 4, 109, 129, 204, 160, 76, 196, 191, 33, 12, 150, 242, 12, 190, 167, 198, 117, 232, 122,
    202, 232, 152, 115, 205, 233, 50, 251, 20, 215, 119, 65, 224, 227, 132, 9, 95, 137, 226, 16,
    144, 195, 182, 25, 142, 139, 121, 184, 51, 202, 29, 165, 131, 65, 54, 58, 174, 12, 65, 192,
    49, 167, 54, 205, 120, 129, 134, 170, 219, 30, 102, 63, 80, 106, 128, 6, 175, 120, 211, 28,
    112, 16, 27, 175, 148, 224, 110, 66, 174, 150, 35, 32, 140, 24, 217, 198, 46, 247, 229, 60,
    195, 56, 41, 201, 152, 173, 4, 74, 76, 127, 16, 1, 241, 91, 45, 96, 47, 24, 113, 222,
    50, 204, 231, 131, 29, 61, 77, 69, 172, 76, 0, 102, 207, 3, 13, 32, 59, 203, 166, 188,
    46, 156, 150, 180, 15, 72, 2, 36, 229, 131, 30, 5, 133, 41, 197, 223, 120, 140, 150, 60,
    7, 253, 144, 124, 29, 153, 122, 17, 71, 5, 130, 190, 205, 8, 155, 165, 3, 16, 223, 167,
    254, 205, 212, 87, 115, 172, 178, 10, 106, 12, 244, 112, 185, 64, 215, 55, 118, 118, 80, 71,
    64, 5, 249, 59, 35, 174, 201, 84, 47, 245, 177, 100, 143, 200, 68, 196, 9, 63, 62, 95,
    240, 65, 90, 61, 66, 182, 197, 25, 150, 18, 74, 224, 215, 200, 17, 211, 210, 241, 64, 129,
    142, 158, 237, 190, 78, 142, 120, 80, 167, 131, 204, 2, 41, 28, 121, 9, 253, 192, 195, 218,
    203, 95, 76, 130, 0, 144, 198, 236, 141, 234, 223, 186, 108, 5, 19, 186, 114, 134, 161, 227,
    40, 168, 72, 140, 17, 51, 19, 130, 156, 128, 244, 192, 177, 150, 36, 10, 147, 82, 52, 130,
    85, 27, 103, 132, 41, 174, 254, 70, 2, 116, 99, 51, 160, 109, 204, 41, 56, 243, 1, 29,
    48, 5, 79, 5, 251, 191, 240, 31, 31, 165, 209, 197, 145, 234, 2, 52, 138, 10, 192, 52,
    142, 80, 127, 73, 122, 227, 24, 119, 174, 18, 139, 55, 250, 146, 100, 99, 168, 102, 43, 167,
    183, 30, 168, 241, 96, 139, 240, 139, 125, 64, 26, 34, 84, 107, 132, 212, 70, 165, 40, 52,
    72, 26, 241, 252, 110, 204, 154, 17, 165, 221, 197, 152, 64, 116, 133, 152, 114, 59, 52, 239,
    40, 118, 199, 24, 35, 5, 6, 64, 156, 119, 38, 39, 54, 66, 59, 160, 170, 156, 42, 43,
    187, 53, 173, 245, 152, 62, 126, 65, 56, 142, 103, 228, 150, 125, 38, 42, 126, 232, 220, 52,
    253, 135, 198, 227, 128, 49, 242, 59, 89, 196, 48, 160, 66, 97, 162, 139, 147, 231, 80, 45,
    64, 254, 95, 13, 32, 136, 203, 183, 38, 212, 111, 140, 85, 212, 147, 135, 71, 44, 255, 191,
    223, 255, 255, 191, 255, 95, 223, 173, 190, 250, 255, 223, 191, 255, 181, 174, 255, 87, 251, 127,
    191, 238, 255, 127, 235, 245, 255, 219, 238, 255, 173, 255, 127, 127, 255, 239, 189, 183, 191, 173,
    191, 223, 253, 255, 251, 245, 127, 189, 183, 181, 187, 223, 127, 175, 254, 255, 242, 219, 219, 251,
    255, 253, 254, 238, 251, 255, 254, 250, 253, 175, 255, 255, 253, 91, 0, 0, 0, 0, 0, 0,
    0, 0, 0, 0, 0, 0, 0, 0, 0, 0, 0, 0, 0, 0, 0, 0, 0, 0, 0, 0,
    0, 0, 0, 0, 0, 0, 0, 0, 0, 0, 0, 0, 0, 0, 0, 0, 0, 0, 0, 0,
    0, 0, 0, 0, 0, 0, 0, 0, 0, 0, 0, 0, 0, 0, 0, 0, 0, 0, 0, 0,
    0, 0, 0, 0,
];

const SIG_2: [u8; 555] = [
    58, 169, 164, 56, 73, 17, 80, 234, 181, 166, 154, 131, 118, 74, 44, 79, 65, 46, 74, 133,
    99, 56, 29, 27, 39, 227, 143, 191, 253, 220, 0, 3, 9, 161, 14, 119, 126, 17, 16, 66,
    192, 170, 164, 172, 26, 21, 196, 88, 80, 161, 174, 162, 110, 51, 198, 242, 170, 195, 110, 209,
    38, 27, 15, 105, 240, 233, 42, 43, 103, 217, 0, 236, 252, 90, 219, 85, 71, 140, 33, 2,
    134, 48, 222, 70, 84, 181, 132, 92, 138, 176, 56, 200, 80, 33, 180, 114, 82, 177, 202, 22,
    103, 0, 65, 229, 172, 163, 2, 10, 137, 132, 149, 208, 48, 201, 145, 81, 31, 60, 146, 44,
    86, 12, 192, 204, 38, 167, 134, 57, 9, 25, 7, 156, 33, 71, 15, 82, 90, 81, 230, 110,
    211, 176, 177, 15, 149, 240, 136, 34, 13, 32, 19, 146, 89, 34, 145, 59, 14, 9, 10, 15,
    200, 100, 56, 168, 28, 67, 220, 89, 89, 10, 178, 66, 24, 104, 12, 122, 198, 63, 5, 80,
    22, 181, 58, 8, 24, 32, 1, 74, 72, 49, 39, 131, 11, 137, 164, 233, 78, 99, 226, 200,
    205, 218, 98, 38, 130, 0, 132, 50, 177, 132, 192, 22, 72, 160, 4, 161, 134, 104, 111, 48,
    51, 103, 18, 191, 145, 80, 130, 24, 34, 148, 179, 6, 40, 227, 160, 48, 97, 49, 174, 204,
    160, 138, 144, 170, 164, 32, 22, 33, 130, 30, 17, 194, 96, 198, 65, 81, 21, 215, 132, 28,
    40, 17, 56, 2, 133, 50, 198, 97, 11, 173, 122, 8, 148, 220, 153, 39, 133, 22, 162, 37,
    194, 128, 16, 162, 128, 24, 144, 17, 197, 56, 48, 26, 102, 131, 1, 149, 24, 122, 74, 4,
    2, 196, 8, 176, 52, 40, 150, 48, 11, 66, 4, 76, 129, 36, 160, 67, 160, 0, 35, 172,
    32, 80, 168, 14, 37, 115, 6, 60, 11, 17, 199, 72, 104, 99, 209, 1, 19, 136, 147, 53,
    96, 20, 162, 110, 141, 26, 129, 66, 202, 128, 3, 158, 3, 97, 77, 113, 90, 117, 98, 159,
    68, 0, 13, 47, 16, 208, 196, 2, 26, 52, 96, 65, 3, 144, 86, 16, 224, 92, 103, 13,
    116, 114, 122, 71, 128, 113, 156, 35, 65, 182, 123, 2, 128, 198, 200, 17, 139, 91, 103, 130,
    51, 10, 9, 160, 137, 50, 203, 33, 255, 255, 255, 255, 255, 255, 255, 255, 255, 255, 255, 255,
    255, 255, 255, 255, 255, 223, 255, 255, 255, 255, 255, 255, 255, 255, 255, 255, 255, 255, 239, 254,
    255, 255, 255, 255, 255, 255, 255, 255, 255, 255, 255, 255, 251, 254, 255, 255, 255, 255, 255, 255,
    255, 255, 255, 255, 255, 255, 255, 255, 255, 255, 255, 255, 31, 0, 0, 0, 0, 0, 0, 0,
    0, 0, 0, 0, 0, 0, 0, 0, 0, 0, 0, 0, 0, 0, 0, 0, 0, 0, 0, 0,
    0, 0, 0, 0, 0, 0, 0, 0, 0, 0, 0, 0, 0, 0, 0, 0, 0, 0, 0, 0,
    0, 0, 0, 0, 0, 0, 0, 0, 0, 0, 0, 0, 0, 0, 0, 0, 0, 0, 0, 0,
    0, 0, 0, 0, 0, 0, 0, 0, 0, 0, 0, 0, 0, 0, 0,
];

const MSG_0: &[u8] = b"first message";
const MSG_1: &[u8] = b"second message, a little longer than the first";
const MSG_2: [u8; 64] = [
    0, 1, 2, 3, 4, 5, 6, 7, 8, 9, 10, 11, 12, 13, 14, 15, 16, 17, 18, 19, 20, 21, 22, 23, 24, 25,
    26, 27, 28, 29, 30, 31, 32, 33, 34, 35, 36, 37, 38, 39, 40, 41, 42, 43, 44, 45, 46, 47, 48, 49,
    50, 51, 52, 53, 54, 55, 56, 57, 58, 59, 60, 61, 62, 63,
];

struct Vector {
    pk: &'static [u8],
    sig: &'static [u8],
    msg: &'static [u8],
}

const VECTORS: [Vector; 3] = [
    Vector { pk: &PK_0, sig: &SIG_0, msg: MSG_0 },
    Vector { pk: &PK_1, sig: &SIG_1, msg: MSG_1 },
    Vector { pk: &PK_2, sig: &SIG_2, msg: &MSG_2 },
];

fn pk(v: &Vector) -> Hawk512Pubkey {
    Hawk512Pubkey::try_from(v.pk).expect("pubkey length")
}

fn sig(v: &Vector) -> Hawk512Signature {
    Hawk512Signature::try_from(v.sig).expect("signature length")
}

#[test]
fn rejects_wrong_length_inputs() {
    assert!(Hawk512Pubkey::try_from(&[0u8; 10][..]).is_err());
    assert!(Hawk512Signature::try_from(&[0u8; 10][..]).is_err());
}

#[test]
fn rejects_all_zero_inputs() {
    let pk = Hawk512Pubkey::from_bytes([0u8; HAWK_512_PUBKEY_LEN]);
    let sig = Hawk512Signature::from_bytes([0u8; HAWK_512_SIGNATURE_LEN]);
    assert!(!sig.verify(b"msg", &pk));
}

#[test]
fn lean_scalar_constants_drift_check() {
    assert_eq!(LOGN, 9);
    assert_eq!(N, 512);

    assert_eq!(HAWK_512_PUBKEY_LEN, 1024);
    assert_eq!(HAWK_512_SIGNATURE_LEN, 555);
    assert_eq!(PUBKEY_LEN, 1024);
    assert_eq!(SIGNATURE_LEN, 555);
    assert_eq!(SALT_LEN, 24);
    assert_eq!(HPUB_LEN, 32);
    assert_eq!(
        HAWK_512_PREPARED_PUBKEY_LEN,
        (N / 2) * 8 + N * 8 + 6 * (N * 4) + HPUB_LEN
    );
    assert_eq!(HAWK_512_PREPARED_PUBKEY_LEN, 18_464);

    assert_eq!(LOW_00, 5);
    assert_eq!(HIGH_00, 9);
    assert_eq!(LOW_01, 9);
    assert_eq!(HIGH_01, 12);
    assert_eq!(LOW_S1, 5);
    assert_eq!(HIGH_S1, 9);
    assert_eq!(HIGH_S0, 13);
    assert_eq!(16 - HIGH_00, 7);
}

#[test]
fn accepts_genuine_vectors() {
    assert!(!VECTORS.is_empty());
    for (i, v) in VECTORS.iter().enumerate() {
        assert!(
            sig(v).verify(v.msg, &pk(v)),
            "vector {i}: genuine signature rejected",
        );
    }
}

#[test]
fn rejects_tampered_message() {
    for (i, v) in VECTORS.iter().enumerate() {
        let mut m = v.msg.to_vec();
        m[0] ^= 0x01;
        assert!(
            !sig(v).verify(&m, &pk(v)),
            "vector {i}: accepted tampered message",
        );
    }
}

#[test]
fn rejects_tampered_signature() {
    for (i, v) in VECTORS.iter().enumerate() {
        // Past the salt, inside the polynomial.
        let mut s = v.sig.to_vec();
        s[40] ^= 0x01;
        let s = Hawk512Signature::try_from(&s[..]).unwrap();
        assert!(
            !s.verify(v.msg, &pk(v)),
            "vector {i}: accepted tampered signature",
        );
    }
}

#[test]
fn rejects_tampered_pubkey() {
    for (i, v) in VECTORS.iter().enumerate() {
        let mut p = v.pk.to_vec();
        p[0] ^= 0x01;
        if let Ok(p) = Hawk512Pubkey::try_from(&p[..]) {
            assert!(
                !sig(v).verify(v.msg, &p),
                "vector {i}: accepted tampered pubkey",
            );
        }
    }
}

#[test]
fn cross_pairings_rejected() {
    for (i, vi) in VECTORS.iter().enumerate() {
        for (j, vj) in VECTORS.iter().enumerate() {
            if i == j {
                continue;
            }
            assert!(
                !sig(vi).verify(vj.msg, &pk(vi)),
                "sig {i} accepted under msg {j}",
            );
            assert!(
                !sig(vi).verify(vi.msg, &pk(vj)),
                "sig {i} accepted under pubkey {j}",
            );
        }
    }
}

// The SHAKE256 hashes of the keys' prepared forms.
const PREPARED_HASHES: [[u8; 32]; 3] = [
    [12, 29, 56, 22, 12, 189, 36, 56, 129, 37, 126, 171, 152, 252, 223, 204,
     140, 139, 39, 122, 157, 193, 159, 22, 158, 106, 47, 4, 203, 184, 104, 204],
    [172, 164, 23, 241, 38, 63, 238, 170, 51, 26, 182, 201, 30, 202, 100, 58,
     47, 235, 253, 155, 11, 101, 90, 22, 229, 217, 114, 137, 46, 236, 94, 48],
    [112, 228, 27, 212, 155, 193, 126, 131, 128, 177, 56, 55, 94, 207, 79, 76,
     170, 168, 101, 51, 237, 185, 45, 231, 18, 149, 178, 41, 142, 138, 115, 22],
];

fn digest(data: &[u8]) -> [u8; 32] {
    let mut sponge = Shake256::new();
    sponge.absorb(data);
    sponge.finalize();
    let mut out = [0u8; 32];
    sponge.squeeze(&mut out);
    out
}

#[test]
fn prepared_forms_are_bit_exact() {
    for (i, v) in VECTORS.iter().enumerate() {
        assert_eq!(digest(&prepare(&pk(v)).as_bytes()), PREPARED_HASHES[i], "vector {i}");
    }
}

fn prepare(p: &Hawk512Pubkey) -> Hawk512PreparedPubkey {
    let mut room = vec![0u8; HAWK_512_PREPARED_PUBKEY_LEN + 7];
    let off = aligned_at(&room);
    let out = buffer_at(&mut room, off);
    p.prepare_into(out).expect("prepare");
    Hawk512PreparedPubkey::from_ref(out)
}

// The first offset that stands on a boundary of eight bytes.
fn aligned_at(room: &[u8]) -> usize {
    (8 - room.as_ptr() as usize % 8) % 8
}

fn buffer_at(room: &mut [u8], off: usize) -> &mut [u8; HAWK_512_PREPARED_PUBKEY_LEN] {
    (&mut room[off..off + HAWK_512_PREPARED_PUBKEY_LEN]).try_into().unwrap()
}

#[test]
fn buffers_are_prepared_only_where_they_are_aligned() {
    let expected = prepare(&pk(&VECTORS[2])).as_bytes();
    let mut room = vec![0u8; HAWK_512_PREPARED_PUBKEY_LEN + 15];
    let first = aligned_at(&room);
    for off in 0..16 {
        let out = buffer_at(&mut room, off);
        *out = [0xa5; HAWK_512_PREPARED_PUBKEY_LEN];
        let r = pk(&VECTORS[2]).prepare_into(out);
        if off % 8 == first {
            assert_eq!(r, Ok(()));
            assert!(*out == expected);
        } else {
            assert_eq!(r, Err(HawkError::InvalidArgument));
            assert!(*out == [0xa5; HAWK_512_PREPARED_PUBKEY_LEN]);
        }
    }
}

#[test]
fn prepared_accepts_genuine_and_matches_direct() {
    assert!(!VECTORS.is_empty());
    for (i, v) in VECTORS.iter().enumerate() {
        let prepared = prepare(&pk(v));
        assert!(
            sig(v).verify_with_prepared(v.msg, &prepared),
            "vector {i}: prepared verify rejected a genuine signature",
        );
        assert_eq!(
            sig(v).verify(v.msg, &pk(v)),
            sig(v).verify_with_prepared(v.msg, &prepared),
            "vector {i}: prepared/direct disagree (genuine)",
        );
    }
}

#[test]
fn prepared_serialisation_roundtrips() {
    for (i, v) in VECTORS.iter().enumerate() {
        let prepared = prepare(&pk(v));
        let bytes: [u8; HAWK_512_PREPARED_PUBKEY_LEN] = prepared.as_bytes();
        let restored = Hawk512PreparedPubkey::from_bytes(bytes);
        assert_eq!(
            restored.as_bytes(),
            prepared.as_bytes(),
            "vector {i}: from_bytes∘as_bytes is not identity",
        );
        assert!(
            sig(v).verify_with_prepared(v.msg, &restored),
            "vector {i}: round-tripped prepared pubkey failed to verify",
        );
        let borrowed = Hawk512PreparedPubkey::from_ref(&bytes);
        assert!(
            sig(v).verify_with_prepared(v.msg, &borrowed),
            "vector {i}: from_ref prepared pubkey failed to verify",
        );
    }
}

#[test]
fn prepared_rejects_tampering() {
    for (i, v) in VECTORS.iter().enumerate() {
        let prepared = prepare(&pk(v));

        let mut m = v.msg.to_vec();
        m[0] ^= 0x01;
        assert!(
            !sig(v).verify_with_prepared(&m, &prepared),
            "vector {i}: prepared accepted a tampered message",
        );

        let mut s = v.sig.to_vec();
        s[40] ^= 0x01;
        let s = Hawk512Signature::try_from(&s[..]).unwrap();
        assert!(
            !s.verify_with_prepared(v.msg, &prepared),
            "vector {i}: prepared accepted a tampered signature",
        );

        let other = &VECTORS[(i + 1) % VECTORS.len()];
        if other.pk != v.pk {
            let other_prepared = prepare(&pk(other));
            assert!(
                !sig(v).verify_with_prepared(v.msg, &other_prepared),
                "vector {i}: verified under a different prepared pubkey",
            );
        }
    }
}

fn raw_ix(pk: &[u8], sig: &[u8], msg: &[u8]) -> Vec<u8> {
    let mut d = Vec::with_capacity(1 + pk.len() + sig.len() + msg.len());
    d.push(0);
    d.extend_from_slice(pk);
    d.extend_from_slice(sig);
    d.extend_from_slice(msg);
    d
}

fn prepared_ix(sig: &[u8], msg: &[u8]) -> Vec<u8> {
    let mut d = Vec::with_capacity(1 + sig.len() + msg.len());
    d.push(1);
    d.extend_from_slice(sig);
    d.extend_from_slice(msg);
    d
}

fn register_ix(pk: &[u8]) -> Vec<u8> {
    let mut d = Vec::with_capacity(1 + pk.len());
    d.push(2);
    d.extend_from_slice(pk);
    d
}

fn run_with(data: Vec<u8>, account_len: Option<usize>) -> Outcome {
    let account = account_len.map(|len| Account { address: 0x1000, len });
    process_instruction(&data, account, &prepare(&pk(&VECTORS[0])))
}

fn run(data: Vec<u8>) -> Outcome {
    run_with(data, None)
}

#[test]
fn raw_verify_fixed_vector() {
    let r = run(raw_ix(&PK_0, &SIG_0, MSG_0));
    assert_eq!(r.code, 0, "raw verify failed: {:?}", r.code);
    assert!(r.write.is_none());
}

#[test]
fn prepared_verify_fixed_vector() {
    let r = run(prepared_ix(&SIG_0, MSG_0));
    assert_eq!(r.code, 0, "prepared verify failed: {:?}", r.code);
    assert!(r.write.is_none());
}

#[test]
fn raw_rejects_tampered_message() {
    let mut m = MSG_0.to_vec();
    m[0] ^= 0x01;
    assert_eq!(
        run(raw_ix(&PK_0, &SIG_0, &m)).code,
        3,
        "expected failure on tampered message (raw)"
    );
}

#[test]
fn prepared_rejects_tampered_message() {
    let mut m = MSG_0.to_vec();
    m[0] ^= 0x01;
    assert_eq!(
        run(prepared_ix(&SIG_0, &m)).code,
        3,
        "expected failure on tampered message (prepared)"
    );
}

#[test]
fn raw_rejects_tampered_signature() {
    let mut sig = SIG_0.to_vec();
    sig[40] ^= 0x01; // past the 24-byte salt, inside s1
    assert_eq!(
        run(raw_ix(&PK_0, &sig, MSG_0)).code,
        3,
        "expected failure on tampered signature (raw)"
    );
}

#[test]
fn prepared_rejects_tampered_signature() {
    let mut sig = SIG_0.to_vec();
    sig[40] ^= 0x01;
    assert_eq!(
        run(prepared_ix(&sig, MSG_0)).code,
        3,
        "expected failure on tampered signature (prepared)"
    );
}

#[test]
fn register_prepares_into_account_bit_exact() {
    let expected = prepare(&pk(&VECTORS[1])).as_bytes();
    let r = run_with(register_ix(&PK_1), Some(expected.len()));
    assert_eq!(r.code, 0, "on-chain prepare failed: {:?}", r.code);
    let out = r.write.expect("registered account present");
    assert_eq!(
        out.len(),
        expected.len(),
        "registered account has the wrong length"
    );
    assert_eq!(
        &out[..],
        &expected[..],
        "on-chain prepare_into bytes differ from the host fixture"
    );
    assert_eq!(digest(&out), PREPARED_HASHES[1]);
    let stored = Hawk512PreparedPubkey::from_bytes(out);
    assert!(sig(&VECTORS[1]).verify_with_prepared(MSG_1, &stored));
}

#[test]
fn register_rejects_invalid_pubkey() {
    let r = run_with(register_ix(&vec![0u8; PK_0.len()]), Some(18_464));
    assert_eq!(r.code, 4, "expected mode 2 to reject an invalid pubkey");
    assert!(r.write.is_none());
}

#[test]
fn register_rejects_undersized_account() {
    // One byte too small for the prepared key.
    let r = run_with(register_ix(&PK_0), Some(18_464 - 1));
    assert_eq!(
        r.code,
        u64::from(ProgramError::AccountDataTooSmall),
        "expected mode 2 to reject an undersized account"
    );
    assert!(r.write.is_none());
}

#[test]
fn unreadable_instructions_are_refused() {
    let invalid = u64::from(ProgramError::InvalidInstructionData);
    assert_eq!(invalid_instruction(), invalid);
    assert_eq!(run(vec![]).code, invalid);
    assert_eq!(run(vec![3]).code, invalid);
    assert_eq!(run(vec![255; 4000]).code, invalid);
    assert_eq!(run(vec![0; 1 + 1024 + 554]).code, invalid);
    assert_eq!(run(vec![0; 1 + 1024 + 555]).code, 3);
    assert_eq!(run(vec![1; 1 + 554]).code, invalid);
    assert_eq!(run(vec![1; 1 + 555]).code, 3);
    assert_eq!(run_with(register_ix(&PK_0), None).code, invalid);
    assert_eq!(run_with(vec![2; 1024], Some(20_000)).code, invalid);
    assert_eq!(run_with(register_ix(&PK_0), Some(20_000)).code, 0);
}

#[test]
fn misaligned_buffers_are_refused() {
    let mut out = [0u8; HAWK_512_PREPARED_PUBKEY_LEN];
    let baked = prepare(&pk(&VECTORS[0]));
    for address in 0..17 {
        assert_eq!(is_aligned(address), address & 7 == 0);
        out = [address as u8; HAWK_512_PREPARED_PUBKEY_LEN];
        let before = out;
        let r = pk(&VECTORS[0]).prepare_at(address, &mut out);
        let account = Some(Account { address, len: 18_464 });
        let o = process_instruction(&register_ix(&PK_0), account, &baked);
        if address % 8 == 0 {
            assert_eq!(r, Ok(()));
            assert_eq!(o.code, 0);
            assert!(o.write == Some(out));
        } else {
            assert_eq!(r, Err(HawkError::InvalidArgument));
            assert!(out == before);
            assert_eq!(o.code, 4);
            assert!(o.write.is_none());
        }
    }
}

#[test]
fn account_block_is_measured() {
    let invalid = u64::from(ProgramError::InvalidInstructionData);
    assert_eq!(account_present(0, 0), Ok(false));
    assert_eq!(account_present(1, 0xff), Ok(true));
    assert_eq!(account_present(1, 0), Err(invalid));
    assert_eq!(account_present(2, 0xff), Err(invalid));
    assert_eq!(instruction_offset(0), 8 + 88 + 10240 + 8);
    assert_eq!(instruction_offset(1), 8 + 88 + 8 + 10240 + 8);
    assert_eq!(instruction_offset(18_464), 8 + 88 + 18_464 + 10240 + 8);
}

#[test]
fn bytes_are_kept() {
    let key = Hawk512Pubkey::from(PK_0);
    assert_eq!(key.as_bytes(), &PK_0);
    assert_eq!(Hawk512Pubkey::from_ref(&PK_0).as_bytes(), &PK_0);
    assert!(key == key.clone());
    assert!(key != Hawk512Pubkey::from(PK_1));
    assert_eq!(Hawk512Pubkey::try_from_slice(&PK_0[1..]).err(), Some(HawkError::InvalidArgument));
    let s = Hawk512Signature::from(SIG_0);
    assert_eq!(s.as_bytes(), &SIG_0);
    assert_eq!(Hawk512Signature::from_ref(&SIG_0).as_bytes(), &SIG_0);
    assert!(s == s.clone());
    assert!(s != Hawk512Signature::from(SIG_1));
    assert_eq!(
        Hawk512Signature::try_from_slice(&PK_0).err(),
        Some(HawkError::InvalidArgument)
    );
    assert!(Hawk512PreparedPubkey::try_from_slice(&[0u8; 18_463]).is_err());
    let mut bytes = [0u8; HAWK_512_PREPARED_PUBKEY_LEN];
    for (i, b) in bytes.iter_mut().enumerate() {
        *b = (i * 131 + i / 256) as u8;
    }
    let k = Hawk512PreparedPubkey::try_from_slice(&bytes).ok().unwrap();
    assert!(k.as_bytes() == bytes);
}

#[test]
fn corrupt_prepared_keys_do_not_verify() {
    for fill in [0u8, 1, 0x7f, 0x80, 0xff] {
        let k = Hawk512PreparedPubkey::from_bytes([fill; HAWK_512_PREPARED_PUBKEY_LEN]);
        for v in VECTORS.iter() {
            assert!(!sig(v).verify_with_prepared(v.msg, &k));
        }
    }
    // One changed word in each part.
    let good = prepare(&pk(&VECTORS[0])).as_bytes();
    for at in [0, 2048, 6144, 8192, 10240, 12288, 14336, 16384, 18432] {
        let mut bad = good;
        bad[at] ^= 0x01;
        let k = Hawk512PreparedPubkey::from_bytes(bad);
        // The low bit of a fixed-point number is lost in the rounding.
        let expected = at < 6144;
        assert_eq!(sig(&VECTORS[0]).verify_with_prepared(MSG_0, &k), expected);
    }
}

#[test]
fn unusable_keys_are_not_prepared() {
    let mut room = vec![0u8; HAWK_512_PREPARED_PUBKEY_LEN + 7];
    let off = aligned_at(&room);
    let out = buffer_at(&mut room, off);
    let zero = Hawk512Pubkey::from_bytes([0u8; HAWK_512_PUBKEY_LEN]);
    assert_eq!(zero.prepare_into(out), Err(HawkError::InvalidArgument));
    // The sign bit of the first coefficient: the key decodes, with q00[0] < 0.
    let mut bytes = PK_0;
    bytes[0] ^= 1;
    let (mut q00, mut q01) = ([0i32; N], [0i32; N]);
    assert!(decode_public(&bytes, &mut q00, &mut q01));
    assert!(q00[0] < 0);
    let bad = Hawk512Pubkey::from_bytes(bytes);
    assert_eq!(bad.prepare_into(out), Err(HawkError::InvalidArgument));
    assert!(!sig(&VECTORS[0]).verify(MSG_0, &bad));
}

#[test]
fn verdict_follows_from_the_hash() {
    for v in VECTORS.iter() {
        let (mut q00, mut q01, mut s1) = ([0i32; N], [0i32; N], [0i32; N]);
        assert!(decode_public(v.pk, &mut q00, &mut q01));
        let salt = decode_signature(v.sig, &mut s1).unwrap();
        let m = compute_m(v.msg, &compute_hpub(v.pk));
        let mut sponge = Shake256::new();
        sponge.absorb(&m);
        sponge.absorb(salt);
        sponge.finalize();
        let mut h = [0u8; 128];
        sponge.squeeze(&mut h);
        let prepared = prepare(&pk(v));
        assert!(verify_hash(&q00, &q01, &s1, &h));
        assert!(verify_hash_prepared(&prepared, &s1, &h));
        // Another hash, a changed coefficient, the opposite sign.
        h.reverse();
        assert!(!verify_hash(&q00, &q01, &s1, &h));
        assert!(!verify_hash_prepared(&prepared, &s1, &h));
        h.reverse();
        s1[5] += 1;
        assert!(!verify_hash(&q00, &q01, &s1, &h));
        s1[5] -= 1;
        for x in s1.iter_mut() {
            *x = -*x;
        }
        assert!(!verify_hash(&q00, &q01, &s1, &h));
    }
}
